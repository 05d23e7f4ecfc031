//! The folder orchestrator: create, get, list, and the descendant closure
//! that the cascading operations (soft delete, restore, permanent delete)
//! are built on. A folder's descendants are found by a transitive closure
//! over `parent_id`, never a fixed-depth walk.

use vstd::prelude::*;
use vstd::multiset::Multiset;

use crate::chars::chars_le;
use crate::chars::chars_le_exec;
use crate::chars::chars_of;
use crate::chars::lemma_chars_le_refl;
use crate::chars::lemma_chars_le_total;
use crate::chars::lemma_chars_le_trans;
use crate::links::lemma_rewrite_upto_shape;
use crate::links::rewrite_pass_t;
use crate::models::Folder;
use crate::models::NoteV;
use crate::models::FolderV;
use crate::models::SearchEntry;
use crate::models::SearchV;
use crate::models::VaultError;
use crate::models::opt_id_view;
use crate::models::opt_str_view;
use crate::chars::str_eq;
use crate::paths::join_path;
use crate::paths::join_path_s;
use crate::paths::link_key_s;
use crate::paths::parent_dir;
use crate::paths::parent_dir_s;
use crate::paths::file_name;
use crate::paths::file_name_s;
use crate::paths::under_prefix_s;
use crate::paths::relative_link_key;
use crate::paths::replace_prefix;
use crate::paths::replace_prefix_s;
use crate::paths::str_concat;
use crate::paths::trash_path_s;
use crate::paths::resolve_folder_path;
use crate::vault::Vault;
use crate::vault::VaultV;
use crate::vault::distinct_keys;
use crate::vault::folder_at;
use crate::vault::live_folder_at_path;
use crate::vault::folder_key;
use crate::vault::folder_views;
use crate::vault::has_folder;
use crate::vault::keep;
use crate::vault::move_tree_t;
use crate::vault::file_content_at;
use crate::vault::has_note;
use crate::vault::note_at;
use crate::vault::remove_tree_t;
use crate::vault::upsert_search_t;
use crate::notes::restored_parent;
use crate::vault::wf_v;

verus! {

/// One parallel round of the closure: every folder whose parent is already
/// in the set joins it.
pub open spec fn closure_step(folders: Seq<FolderV>, s: Set<int>) -> Set<int>
    decreases folders.len(),
{
    if folders.len() == 0 {
        s
    } else {
        let t = closure_step(folders.drop_last(), s);
        let f = folders.last();
        if f.parent_id is Some && s.contains(f.parent_id->Some_0) {
            t.insert(f.id)
        } else {
            t
        }
    }
}

/// The closure after `k` rounds.
pub open spec fn closure_iter(folders: Seq<FolderV>, s: Set<int>, k: nat) -> Set<int>
    decreases k,
{
    if k == 0 {
        s
    } else {
        closure_step(folders, closure_iter(folders, s, (k - 1) as nat))
    }
}

/// The ids of a folder and all its descendants: as many rounds as there
/// are folders saturate any acyclic parent chain.
pub open spec fn folder_closure_s(folders: Seq<FolderV>, root: int) -> Set<int> {
    closure_iter(folders, Set::<int>::empty().insert(root), folders.len() as nat)
}

pub open spec fn id_set(s: Seq<i64>) -> Set<int> {
    s.map_values(|y: i64| y as int).to_set()
}

pub proof fn lemma_closure_step_grows(folders: Seq<FolderV>, s: Set<int>)
    ensures
        s.subset_of(closure_step(folders, s)),
        forall|x: int|
            closure_step(folders, s).contains(x) ==> s.contains(x) || exists|j: int|
                0 <= j < folders.len() && #[trigger] folders[j].id == x && folders[j].parent_id is Some
                    && s.contains(folders[j].parent_id->Some_0),
    decreases folders.len(),
{
    if folders.len() > 0 {
        lemma_closure_step_grows(folders.drop_last(), s);
        assert forall|x: int| closure_step(folders, s).contains(x) implies s.contains(x)
            || exists|j: int|
            0 <= j < folders.len() && #[trigger] folders[j].id == x && folders[j].parent_id is Some
                && s.contains(folders[j].parent_id->Some_0) by {
            let f = folders.last();
            if f.parent_id is Some && s.contains(f.parent_id->Some_0) && x == f.id {
                assert(folders[folders.len() - 1].id == x);
            } else {
                assert(closure_step(folders.drop_last(), s).contains(x));
                if !s.contains(x) {
                    let j = choose|j: int|
                        0 <= j < folders.drop_last().len()
                            && #[trigger] folders.drop_last()[j].id == x
                            && folders.drop_last()[j].parent_id is Some && s.contains(
                            folders.drop_last()[j].parent_id->Some_0,
                        );
                    assert(folders[j] == folders.drop_last()[j]);
                    assert(folders[j].id == x);
                }
            }
        }
    }
}

/// Membership survives each round.
pub proof fn lemma_closure_iter_grows(folders: Seq<FolderV>, s: Set<int>, k: nat)
    ensures
        s.subset_of(closure_iter(folders, s, k)),
    decreases k,
{
    if k > 0 {
        lemma_closure_iter_grows(folders, s, (k - 1) as nat);
        lemma_closure_step_grows(folders, closure_iter(folders, s, (k - 1) as nat));
    }
}

impl Vault {
    pub(crate) fn contains_id(v: &Vec<i64>, x: i64) -> (r: bool)
        ensures
            r == id_set(v@).contains(x as int),
    {
        let mut i: usize = 0;
        while i < v.len()
            invariant
                i <= v@.len(),
                forall|k: int| 0 <= k < i ==> #[trigger] v@[k] != x,
            decreases v@.len() - i,
        {
            if v[i] == x {
                proof {
                    assert(v@.map_values(|y: i64| y as int)[i as int] == x as int);
                    assert(v@.map_values(|y: i64| y as int).contains(x as int));
                }
                return true;
            }
            i = i + 1;
        }
        proof {
            if id_set(v@).contains(x as int) {
                let m = v@.map_values(|y: i64| y as int);
                assert(m.contains(x as int));
                let j = choose|j: int| 0 <= j < m.len() && m[j] == x as int;
                assert(v@[j] as int == x as int);
                assert(v@[j] == x);
            }
        }
        false
    }

    /// The ids of the folder and all its descendants, by saturating the
    /// parent relation.
    pub(crate) fn folder_closure(&self, root: i64) -> (r: Vec<i64>)
        requires
            self.wf(),
        ensures
            id_set(r@) == folder_closure_s(self@.folders, root as int),
    {
        let mut acc: Vec<i64> = Vec::new();
        acc.push(root);
        proof {
            assert(acc@.map_values(|y: i64| y as int) =~= seq![root as int]);
            assert(id_set(acc@) =~= Set::<int>::empty().insert(root as int)) by {
                assert forall|x: int| id_set(acc@).contains(x) implies Set::<
                    int,
                >::empty().insert(root as int).contains(x) by {
                    let m = acc@.map_values(|y: i64| y as int);
                    let j = choose|j: int| 0 <= j < m.len() && m[j] == x;
                    assert(j == 0);
                }
                assert(acc@.map_values(|y: i64| y as int)[0] == root as int);
                assert(acc@.map_values(|y: i64| y as int).contains(root as int));
            }
        }
        let n = self.folders.len();
        let mut round: usize = 0;
        while round < n
            invariant
                round <= n,
                n == self@.folders.len(),
                self.wf(),
                id_set(acc@) == closure_iter(
                    self@.folders,
                    Set::<int>::empty().insert(root as int),
                    round as nat,
                ),
            decreases n - round,
        {
            let ghost s0 = id_set(acc@);
            let mut prev: Vec<i64> = Vec::new();
            let mut t: usize = 0;
            while t < acc.len()
                invariant
                    t <= acc@.len(),
                    prev@ == acc@.subrange(0, t as int),
                decreases acc@.len() - t,
            {
                prev.push(acc[t]);
                t = t + 1;
                proof {
                    assert(prev@ =~= acc@.subrange(0, t as int));
                }
            }
            proof {
                assert(prev@ =~= acc@);
            }
            let mut j: usize = 0;
            proof {
                assert(folder_views(self.folders@).subrange(0, 0).len() == 0);
                assert(closure_step(folder_views(self.folders@).subrange(0, 0), s0) == s0);
            }
            while j < n
                invariant
                    j <= n,
                    n == self@.folders.len(),
                    self.wf(),
                    prev@ == acc@.subrange(0, prev@.len() as int) || id_set(prev@) == s0,
                    id_set(prev@) == s0,
                    id_set(acc@) == closure_step(
                        folder_views(self.folders@).subrange(0, j as int),
                        s0,
                    ),
                decreases n - j,
            {
                let ghost pre2 = folder_views(self.folders@).subrange(0, j + 1);
                proof {
                    assert(pre2.drop_last() =~= folder_views(self.folders@).subrange(
                        0,
                        j as int,
                    ));
                    assert(pre2.last() == self.folders@[j as int]@);
                }
                let joins = match self.folders[j].parent_id {
                    Some(p) => Self::contains_id(&prev, p),
                    None => false,
                };
                if joins {
                    let fid = self.folders[j].id;
                    if !Self::contains_id(&acc, fid) {
                        let ghost acc0 = acc@;
                        acc.push(fid);
                        proof {
                            assert(acc@.map_values(|y: i64| y as int) =~= acc0.map_values(
                                |y: i64| y as int,
                            ).push(fid as int));
                            assert(id_set(acc@) =~= id_set(acc0).insert(fid as int)) by {
                                let m0 = acc0.map_values(|y: i64| y as int);
                                let m = acc@.map_values(|y: i64| y as int);
                                assert forall|x: int| m.contains(x) implies id_set(acc0).insert(
                                    fid as int,
                                ).contains(x) by {
                                    let w = choose|w: int| 0 <= w < m.len() && m[w] == x;
                                    if w < m0.len() {
                                        assert(m0[w] == x);
                                        assert(m0.contains(x));
                                    }
                                }
                                assert forall|x: int| id_set(acc0).insert(
                                    fid as int,
                                ).contains(x) implies m.contains(x) by {
                                    if x == fid as int {
                                        assert(m[m.len() - 1] == x);
                                    } else {
                                        let w = choose|w: int|
                                            0 <= w < m0.len() && m0[w] == x;
                                        assert(m[w] == x);
                                    }
                                }
                            }
                            assert(id_set(acc@) =~= closure_step(pre2, s0));
                        }
                    } else {
                        proof {
                            assert(closure_step(pre2, s0) =~= id_set(acc@));
                        }
                    }
                } else {
                    proof {
                        assert(closure_step(pre2, s0) == closure_step(
                            pre2.drop_last(),
                            s0,
                        ));
                    }
                }
                j = j + 1;
            }
            proof {
                assert(folder_views(self.folders@).subrange(0, n as int) =~= folder_views(
                    self.folders@,
                ));
            }
            round = round + 1;
        }
        acc
    }

    /// Creates a folder: fails with `Conflict` when a live folder already
    /// occupies the resolved path; otherwise inserts the row and returns
    /// it.
    pub fn create_folder(
        &mut self,
        name: String,
        parent_id: Option<i64>,
        parent_path: Option<String>,
        now: &str,
    ) -> (r: Result<Folder, VaultError>)
        requires
            old(self).wf(),
        ensures
            final(self).wf(),
            match r {
                Ok(f) => {
                    &&& !live_folder_at_path(
                        old(self)@,
                        join_path_s(
                            join_path_s(
                                old(self)@.base,
                                match opt_str_view(parent_path) {
                                    Some(pp) => pp,
                                    None => Seq::<char>::empty(),
                                },
                            ),
                            name@,
                        ),
                    )
                    &&& old(self)@.next_folder_id < i64::MAX
                    &&& f.id == old(self)@.next_folder_id
                    &&& f.name@ == name@
                    &&& opt_id_view(f.parent_id) == opt_id_view(parent_id)
                    &&& f.folder_path@ == join_path_s(
                        join_path_s(
                            old(self)@.base,
                            match opt_str_view(parent_path) {
                                Some(pp) => pp,
                                None => Seq::<char>::empty(),
                            },
                        ),
                        name@,
                    )
                    &&& !f.is_deleted
                    &&& f.created_at@ == now@
                    &&& final(self)@ == (VaultV {
                        folders: old(self)@.folders.push(f@),
                        next_folder_id: old(self)@.next_folder_id + 1,
                        ..old(self)@
                    })
                },
                Err(VaultError::Conflict) => {
                    &&& live_folder_at_path(
                        old(self)@,
                        join_path_s(
                            join_path_s(
                                old(self)@.base,
                                match opt_str_view(parent_path) {
                                    Some(pp) => pp,
                                    None => Seq::<char>::empty(),
                                },
                            ),
                            name@,
                        ),
                    )
                    &&& final(self)@ == old(self)@
                },
                Err(VaultError::IOFailure) => old(self)@.next_folder_id == i64::MAX
                    && final(self)@ == old(self)@,
                Err(_) => false,
            },
    {
        let full_path = resolve_folder_path(self.base.as_str(), &parent_path, name.as_str());
        let mut i: usize = 0;
        while i < self.folders.len()
            invariant
                i <= self@.folders.len(),
                full_path@ == join_path_s(
                    join_path_s(
                        self@.base,
                        match opt_str_view(parent_path) {
                            Some(pp) => pp,
                            None => Seq::<char>::empty(),
                        },
                    ),
                    name@,
                ),
                self.wf(),
                forall|k: int|
                    0 <= k < i ==> !(!(#[trigger] self@.folders[k]).is_deleted
                        && self@.folders[k].folder_path == full_path@),
            decreases self@.folders.len() - i,
        {
            if !self.folders[i].is_deleted && crate::chars::str_eq(
                self.folders[i].folder_path.as_str(),
                full_path.as_str(),
            ) {
                proof {
                    assert(self@.folders[i as int] == self.folders@[i as int]@);
                    assert(live_folder_at_path(self@, full_path@));
                }
                return Err(VaultError::Conflict);
            }
            i = i + 1;
        }
        proof {
            if live_folder_at_path(self@, full_path@) {
                let w = choose|w: int|
                    0 <= w < self@.folders.len() && !self@.folders[w].is_deleted
                        && self@.folders[w].folder_path == full_path@;
                assert(!(!self@.folders[w].is_deleted && self@.folders[w].folder_path
                    == full_path@));
            }
        }
        if self.next_folder_id == i64::MAX {
            return Err(VaultError::IOFailure);
        }
        let id = self.next_folder_id;
        let ghost v0 = self@;
        let row = Folder {
            id,
            name,
            created_at: now.to_owned(),
            updated_at: now.to_owned(),
            parent_id,
            folder_path: full_path,
            is_deleted: false,
            deleted_at: None,
            icon: None,
            color: None,
            sort_by: None,
            sort_order: None,
        };
        let out = row.duplicate();
        self.folders.push(row);
        self.next_folder_id = id + 1;
        proof {
            assert(folder_views(self.folders@) =~= v0.folders.push(out@));
            assert(wf_v(self@)) by {
                assert forall|a: int, b: int| 0 <= a < b < self@.folders.len() implies folder_key(
                    self@.folders[a],
                ) != folder_key(self@.folders[b]) by {
                    if b == self@.folders.len() - 1 {
                        assert(self@.folders[a] == v0.folders[a]);
                        assert(0 < v0.folders[a].id < v0.next_folder_id);
                    } else {
                        assert(self@.folders[a] == v0.folders[a]);
                        assert(self@.folders[b] == v0.folders[b]);
                    }
                }
                assert forall|k: int| 0 <= k < self@.folders.len() implies 0
                    < #[trigger] self@.folders[k].id < self@.next_folder_id by {
                    if k < self@.folders.len() - 1 {
                        assert(self@.folders[k] == v0.folders[k]);
                    }
                }
            }
        }
        Ok(out)
    }

    /// Reads a folder row; fails with `NotFound` when it is missing.
    pub fn get_folder_by_id(&self, id: i64) -> (r: Result<Folder, VaultError>)
        requires
            self.wf(),
        ensures
            match r {
                Ok(f) => has_folder(self@, id as int) && f@ == self@.folders[folder_at(
                    self@,
                    id as int,
                )],
                Err(VaultError::NotFound) => !has_folder(self@, id as int),
                Err(_) => false,
            },
    {
        match self.find_folder(id) {
            Some(i) => Ok(self.folders[i].duplicate()),
            None => Err(VaultError::NotFound),
        }
    }

    /// All live folders, in stored order.
    pub fn get_all_folders(&self) -> (r: Vec<Folder>)
        requires
            self.wf(),
        ensures
            folder_views(r@) == keep(self@.folders, |f: FolderV| !f.is_deleted),
    {
        let mut picked: Vec<Folder> = Vec::new();
        let mut i: usize = 0;
        proof {
            assert(folder_views(self.folders@).subrange(0, 0) =~= Seq::<FolderV>::empty());
        }
        while i < self.folders.len()
            invariant
                i <= self@.folders.len(),
                folder_views(picked@) == keep(
                    folder_views(self.folders@).subrange(0, i as int),
                    |f: FolderV| !f.is_deleted,
                ),
            decreases self@.folders.len() - i,
        {
            let ghost pre2 = folder_views(self.folders@).subrange(0, i + 1);
            proof {
                assert(pre2.drop_last() =~= folder_views(self.folders@).subrange(0, i as int));
                assert(pre2.last() == self.folders@[i as int]@);
            }
            if !self.folders[i].is_deleted {
                let e = self.folders[i].duplicate();
                picked.push(e);
            }
            i = i + 1;
            proof {
                assert(folder_views(picked@) =~= keep(pre2, |f: FolderV| !f.is_deleted));
            }
        }
        proof {
            assert(folder_views(self.folders@).subrange(0, i as int) =~= folder_views(
                self.folders@,
            ));
        }
        picked
    }

    /// All soft-deleted folders, ordered by `deleted_at` descending.
    pub fn get_deleted_folders(&self) -> (r: Vec<Folder>)
        requires
            self.wf(),
        ensures
            folder_views(r@).to_multiset() == keep(
                self@.folders,
                |f: FolderV| f.is_deleted,
            ).to_multiset(),
            sorted_folders_desc(folder_views(r@)),
    {
        let mut picked: Vec<Folder> = Vec::new();
        let mut i: usize = 0;
        proof {
            assert(folder_views(self.folders@).subrange(0, 0) =~= Seq::<FolderV>::empty());
        }
        while i < self.folders.len()
            invariant
                i <= self@.folders.len(),
                folder_views(picked@) == keep(
                    folder_views(self.folders@).subrange(0, i as int),
                    |f: FolderV| f.is_deleted,
                ),
            decreases self@.folders.len() - i,
        {
            let ghost pre2 = folder_views(self.folders@).subrange(0, i + 1);
            proof {
                assert(pre2.drop_last() =~= folder_views(self.folders@).subrange(0, i as int));
                assert(pre2.last() == self.folders@[i as int]@);
            }
            if self.folders[i].is_deleted {
                let e = self.folders[i].duplicate();
                picked.push(e);
            }
            i = i + 1;
            proof {
                assert(folder_views(picked@) =~= keep(pre2, |f: FolderV| f.is_deleted));
            }
        }
        proof {
            assert(folder_views(self.folders@).subrange(0, i as int) =~= folder_views(
                self.folders@,
            ));
        }
        sort_folders_desc(picked)
    }
}

/// The key the trash list of folders is ordered by.
pub open spec fn folder_sort_key(f: FolderV) -> Seq<char> {
    match f.deleted_at {
        Some(d) => d,
        None => Seq::<char>::empty(),
    }
}

/// Ordered by `deleted_at`, newest first.
pub open spec fn sorted_folders_desc(s: Seq<FolderV>) -> bool {
    forall|i: int, j: int|
        0 <= i < j < s.len() ==> chars_le(folder_sort_key(s[j]), folder_sort_key(s[i]))
}

fn folder_key_chars(f: &Folder) -> (r: Vec<char>)
    ensures
        r@ == folder_sort_key(f@),
{
    match &f.deleted_at {
        Some(d) => chars_of(d.as_str()),
        None => Vec::new(),
    }
}

fn sort_folders_desc(folders: Vec<Folder>) -> (r: Vec<Folder>)
    ensures
        folder_views(r@).to_multiset() == folder_views(folders@).to_multiset(),
        sorted_folders_desc(folder_views(r@)),
{
    broadcast use vstd::seq_lib::group_seq_lib_default;
    broadcast use vstd::seq_lib::group_to_multiset_ensures;

    let mut rest = folders;
    let mut out: Vec<Folder> = Vec::new();
    proof {
        folder_views(out@).to_multiset_ensures();
        assert(folder_views(out@).to_multiset() =~= Multiset::<FolderV>::empty()) by {
            assert forall|x: FolderV| folder_views(out@).to_multiset().count(x) == 0 by {
                if folder_views(out@).to_multiset().count(x) > 0 {
                    assert(folder_views(out@).contains(x));
                }
            }
        }
        assert(folder_views(out@).to_multiset().add(folder_views(rest@).to_multiset())
            =~= folder_views(folders@).to_multiset());
    }
    while rest.len() > 0
        invariant
            folder_views(out@).to_multiset().add(folder_views(rest@).to_multiset())
                == folder_views(folders@).to_multiset(),
            sorted_folders_desc(folder_views(out@)),
            forall|a: int, b: int|
                0 <= a < out@.len() && 0 <= b < rest@.len() ==> chars_le(
                    folder_sort_key(#[trigger] folder_views(rest@)[b]),
                    folder_sort_key(#[trigger] folder_views(out@)[a]),
                ),
        decreases rest@.len(),
    {
        let mut m: usize = 0;
        let mut k: usize = 1;
        proof {
            lemma_chars_le_refl(folder_sort_key(folder_views(rest@)[0]));
        }
        while k < rest.len()
            invariant
                m < k,
                k <= rest@.len(),
                rest@.len() > 0,
                forall|t: int|
                    0 <= t < k ==> chars_le(
                        folder_sort_key(#[trigger] folder_views(rest@)[t]),
                        folder_sort_key(folder_views(rest@)[m as int]),
                    ),
            decreases rest@.len() - k,
        {
            let km = folder_key_chars(&rest[m]);
            let kk = folder_key_chars(&rest[k]);
            if chars_le_exec(&km, &kk) {
                proof {
                    let ghost old_m = m as int;
                    assert forall|t: int| 0 <= t < k + 1 implies chars_le(
                        folder_sort_key(#[trigger] folder_views(rest@)[t]),
                        folder_sort_key(folder_views(rest@)[k as int]),
                    ) by {
                        if t < k {
                            lemma_chars_le_trans(
                                folder_sort_key(folder_views(rest@)[t]),
                                folder_sort_key(folder_views(rest@)[old_m]),
                                folder_sort_key(folder_views(rest@)[k as int]),
                            );
                        } else {
                            lemma_chars_le_refl(
                                folder_sort_key(folder_views(rest@)[k as int]),
                            );
                        }
                    }
                }
                m = k;
            } else {
                proof {
                    lemma_chars_le_total(
                        folder_sort_key(folder_views(rest@)[m as int]),
                        folder_sort_key(folder_views(rest@)[k as int]),
                    );
                }
            }
            k = k + 1;
        }
        let ghost rest0 = rest@;
        let ghost out0 = out@;
        let x = rest.remove(m);
        out.push(x);
        proof {
            assert(folder_views(rest@) =~= folder_views(rest0).remove(m as int));
            assert(folder_views(out@) =~= folder_views(out0).push(
                folder_views(rest0)[m as int],
            ));
            folder_views(rest0).to_multiset_ensures();
            folder_views(out0).to_multiset_ensures();
            assert(folder_views(rest@).to_multiset() =~= folder_views(
                rest0,
            ).to_multiset().remove(folder_views(rest0)[m as int]));
            assert(folder_views(out@).to_multiset() =~= folder_views(
                out0,
            ).to_multiset().insert(folder_views(rest0)[m as int]));
            assert(folder_views(rest0).to_multiset().contains(
                folder_views(rest0)[m as int],
            )) by {
                assert(folder_views(rest0).contains(folder_views(rest0)[m as int]));
            }
            assert(folder_views(out@).to_multiset().add(folder_views(rest@).to_multiset())
                =~= folder_views(out0).to_multiset().add(folder_views(rest0).to_multiset()));
            assert forall|a: int, b: int|
                0 <= a < out@.len() && 0 <= b < rest@.len() implies chars_le(
                folder_sort_key(#[trigger] folder_views(rest@)[b]),
                folder_sort_key(#[trigger] folder_views(out@)[a]),
            ) by {
                assert(folder_views(rest@)[b] == folder_views(rest0).remove(m as int)[b]);
                if b < m as int {
                    assert(folder_views(rest@)[b] == folder_views(rest0)[b]);
                } else {
                    assert(folder_views(rest@)[b] == folder_views(rest0)[b + 1]);
                }
                if a < out0.len() {
                    assert(folder_views(out@)[a] == folder_views(out0)[a]);
                } else {
                    assert(folder_views(out@)[a] == folder_views(rest0)[m as int]);
                }
            }
            assert(sorted_folders_desc(folder_views(out@))) by {
                assert forall|i: int, j: int|
                    0 <= i < j < folder_views(out@).len() implies chars_le(
                    folder_sort_key(folder_views(out@)[j]),
                    folder_sort_key(folder_views(out@)[i]),
                ) by {
                    assert(folder_views(out@)[i] == folder_views(out0)[i]);
                    if j < out0.len() {
                        assert(folder_views(out@)[j] == folder_views(out0)[j]);
                    } else {
                        assert(folder_views(out@)[j] == folder_views(rest0)[m as int]);
                    }
                }
            }
        }
    }
    proof {
        assert(folder_views(rest@).to_multiset() =~= Multiset::<FolderV>::empty()) by {
            assert(folder_views(rest@).len() == 0);
            folder_views(rest@).to_multiset_ensures();
            assert forall|x: FolderV| folder_views(rest@).to_multiset().count(x) == 0 by {
                if folder_views(rest@).to_multiset().count(x) > 0 {
                    assert(folder_views(rest@).contains(x));
                }
            }
        }
        assert(folder_views(out@).to_multiset() =~= folder_views(folders@).to_multiset());
    }
    out
}

} // verus!

verus! {

/// Every folder path at or under `from` rewritten to hang under `to`.
pub open spec fn prefix_rewrite_folders(
    folders: Seq<FolderV>,
    from: Seq<char>,
    to: Seq<char>,
) -> Seq<FolderV> {
    folders.map_values(
        |f: FolderV| FolderV { folder_path: replace_prefix_s(f.folder_path, from, to), ..f },
    )
}

/// Every note path at or under `from` rewritten to hang under `to`.
pub open spec fn prefix_rewrite_notes(
    notes: Seq<NoteV>,
    from: Seq<char>,
    to: Seq<char>,
) -> Seq<NoteV> {
    notes.map_values(
        |n: NoteV| NoteV { file_path: replace_prefix_s(n.file_path, from, to), ..n },
    )
}

/// Whether walking the parent chain upward from `from` reaches `target`
/// within `fuel` steps; the chain stops at the root or at a missing row.
pub open spec fn hits_ancestor(v: VaultV, from: int, target: int, fuel: nat) -> bool
    decreases fuel,
{
    if from == target {
        true
    } else if fuel == 0 {
        false
    } else if has_folder(v, from) {
        match v.folders[folder_at(v, from)].parent_id {
            Some(p) => hits_ancestor(v, p, target, (fuel - 1) as nat),
            None => false,
        }
    } else {
        false
    }
}

/// A folder move is a cycle when the destination is the folder itself or
/// one of its own descendants.
pub open spec fn move_makes_cycle(v: VaultV, id: int, new_parent_id: Option<int>) -> bool {
    match new_parent_id {
        Some(p) => p == id || hits_ancestor(v, p, id, v.folders.len() as nat),
        None => false,
    }
}

impl Vault {
    /// Rewrites every folder path at or under `from` to hang under `to`.
    pub(crate) fn rewrite_folder_paths(&mut self, from: &str, to: &str)
        ensures
            final(self)@ == (VaultV {
                folders: prefix_rewrite_folders(old(self)@.folders, from@, to@),
                ..old(self)@
            }),
    {
        let mut out: Vec<Folder> = Vec::new();
        let mut i: usize = 0;
        while i < self.folders.len()
            invariant
                i <= self@.folders.len(),
                folder_views(out@) == prefix_rewrite_folders(
                    folder_views(self.folders@).subrange(0, i as int),
                    from@,
                    to@,
                ),
            decreases self@.folders.len() - i,
        {
            let ghost pre = folder_views(self.folders@).subrange(0, i as int);
            let ghost pre2 = folder_views(self.folders@).subrange(0, i + 1);
            let ghost out0 = out@;
            let np = replace_prefix(self.folders[i].folder_path.as_str(), from, to);
            let mut e = self.folders[i].duplicate();
            e.folder_path = np;
            let ghost ev = e@;
            out.push(e);
            proof {
                let g = |x: FolderV| FolderV {
                    folder_path: replace_prefix_s(x.folder_path, from@, to@),
                    ..x
                };
                assert(ev == g(self.folders@[i as int]@));
                assert(out@[out@.len() - 1]@ == ev);
                assert(folder_views(out0) == prefix_rewrite_folders(pre, from@, to@));
                assert(out0.len() == pre.len()) by {
                    assert(folder_views(out0).len() == out0.len());
                    assert(prefix_rewrite_folders(pre, from@, to@).len() == pre.len());
                }
                assert forall|k: int| 0 <= k < pre2.len() implies folder_views(out@)[k]
                    == prefix_rewrite_folders(pre2, from@, to@)[k] by {
                    assert(prefix_rewrite_folders(pre2, from@, to@)[k] == g(pre2[k]));
                    assert(folder_views(out@)[k] == out@[k]@);
                    if k < i as int {
                        assert(pre2[k] == pre[k]);
                        assert(out@[k] == out0[k]);
                        assert(out0[k]@ == folder_views(out0)[k]);
                    } else {
                        assert(pre2[k] == self.folders@[i as int]@);
                        assert(out@[k]@ == ev);
                    }
                }
                assert(folder_views(out@).len() == out@.len());
                assert(folder_views(out@) =~= prefix_rewrite_folders(pre2, from@, to@));
            }
            i = i + 1;
        }
        proof {
            assert(folder_views(self.folders@).subrange(0, i as int) =~= folder_views(
                self.folders@,
            ));
        }
        self.folders = out;
    }

    /// Rewrites every note path at or under `from` to hang under `to`.
    pub(crate) fn rewrite_note_paths(&mut self, from: &str, to: &str)
        ensures
            final(self)@ == (VaultV {
                notes: prefix_rewrite_notes(old(self)@.notes, from@, to@),
                ..old(self)@
            }),
    {
        let mut out: Vec<crate::models::Note> = Vec::new();
        let mut i: usize = 0;
        while i < self.notes.len()
            invariant
                i <= self@.notes.len(),
                crate::vault::note_views(out@) == prefix_rewrite_notes(
                    crate::vault::note_views(self.notes@).subrange(0, i as int),
                    from@,
                    to@,
                ),
            decreases self@.notes.len() - i,
        {
            let ghost pre = crate::vault::note_views(self.notes@).subrange(0, i as int);
            let ghost pre2 = crate::vault::note_views(self.notes@).subrange(0, i + 1);
            let ghost out0 = out@;
            let np = replace_prefix(self.notes[i].file_path.as_str(), from, to);
            let mut e = self.notes[i].duplicate();
            e.file_path = np;
            let ghost ev = e@;
            out.push(e);
            proof {
                let g = |x: NoteV| NoteV {
                    file_path: replace_prefix_s(x.file_path, from@, to@),
                    ..x
                };
                assert(ev == g(self.notes@[i as int]@));
                assert(out@[out@.len() - 1]@ == ev);
                assert(crate::vault::note_views(out0) == prefix_rewrite_notes(pre, from@, to@));
                assert(out0.len() == pre.len()) by {
                    assert(crate::vault::note_views(out0).len() == out0.len());
                    assert(prefix_rewrite_notes(pre, from@, to@).len() == pre.len());
                }
                assert forall|k: int| 0 <= k < pre2.len() implies crate::vault::note_views(
                    out@,
                )[k] == prefix_rewrite_notes(pre2, from@, to@)[k] by {
                    assert(prefix_rewrite_notes(pre2, from@, to@)[k] == g(pre2[k]));
                    assert(crate::vault::note_views(out@)[k] == out@[k]@);
                    if k < i as int {
                        assert(pre2[k] == pre[k]);
                        assert(out@[k] == out0[k]);
                        assert(out0[k]@ == crate::vault::note_views(out0)[k]);
                    } else {
                        assert(pre2[k] == self.notes@[i as int]@);
                        assert(out@[k]@ == ev);
                    }
                }
                assert(crate::vault::note_views(out@).len() == out@.len());
                assert(crate::vault::note_views(out@) =~= prefix_rewrite_notes(
                    pre2,
                    from@,
                    to@,
                ));
            }
            i = i + 1;
        }
        proof {
            assert(crate::vault::note_views(self.notes@).subrange(0, i as int)
                =~= crate::vault::note_views(self.notes@));
        }
        self.notes = out;
    }
}

/// The state after a folder rename or cosmetic update: the directory and
/// its contents carried to the new path, every stored path under the old
/// prefix rewritten, the row's fields set, and backlinks in the live notes
/// rewritten for the changed key prefix.
pub open spec fn update_folder_t(
    v: VaultV,
    id: int,
    name: Seq<char>,
    parent_id: Option<int>,
    icon: Option<Seq<char>>,
    color: Option<Seq<char>>,
    sort_by: Option<Seq<char>>,
    sort_order: Option<Seq<char>>,
    now: Seq<char>,
) -> VaultV {
    let i = folder_at(v, id);
    let f = v.folders[i];
    let old_path = f.folder_path;
    let new_path = join_path_s(parent_dir_s(old_path), name);
    let v1 = VaultV {
        files: if new_path == old_path {
            v.files
        } else {
            move_tree_t(v.files, old_path, new_path)
        },
        folders: prefix_rewrite_folders(v.folders, old_path, new_path),
        notes: prefix_rewrite_notes(v.notes, old_path, new_path),
        ..v
    };
    let g = v1.folders[i];
    let v2 = VaultV {
        folders: v1.folders.update(
            i,
            FolderV {
                name: name,
                parent_id: parent_id,
                icon: icon,
                color: color,
                sort_by: sort_by,
                sort_order: sort_order,
                ..g
            },
        ),
        ..v1
    };
    let old_rel = link_key_s(v.base, old_path);
    let new_rel = link_key_s(v.base, new_path);
    if old_rel == new_rel {
        v2
    } else {
        rewrite_pass_t(
            v2,
            "[["@ + old_rel + seq!['/'],
            "[["@ + new_rel + seq!['/'],
            Seq::<char>::empty(),
            Seq::<char>::empty(),
            false,
            true,
            now,
        )
    }
}

/// The state after a folder move: the same carrying and rewriting as a
/// rename, with the row re-parented and its `updated_at` bumped.
pub open spec fn move_folder_t(v: VaultV, id: int, new_parent_id: Option<int>, now: Seq<char>) -> VaultV {
    let i = folder_at(v, id);
    let f = v.folders[i];
    let old_path = f.folder_path;
    let dir = match new_parent_id {
        Some(p) => v.folders[folder_at(v, p)].folder_path,
        None => v.base,
    };
    let new_path = join_path_s(dir, file_name_s(old_path));
    let v1 = VaultV {
        files: if new_path == old_path {
            v.files
        } else {
            move_tree_t(v.files, old_path, new_path)
        },
        folders: prefix_rewrite_folders(v.folders, old_path, new_path),
        notes: prefix_rewrite_notes(v.notes, old_path, new_path),
        ..v
    };
    let g = v1.folders[i];
    let v2 = VaultV {
        folders: v1.folders.update(
            i,
            FolderV { parent_id: new_parent_id, updated_at: now, ..g },
        ),
        ..v1
    };
    let old_rel = link_key_s(v.base, old_path);
    let new_rel = link_key_s(v.base, new_path);
    if old_rel == new_rel {
        v2
    } else {
        rewrite_pass_t(
            v2,
            "[["@ + old_rel + seq!['/'],
            "[["@ + new_rel + seq!['/'],
            Seq::<char>::empty(),
            Seq::<char>::empty(),
            false,
            true,
            now,
        )
    }
}

proof fn lemma_prefix_rewrite_wf(v: VaultV, from: Seq<char>, to: Seq<char>)
    requires
        wf_v(v),
    ensures
        wf_v(
            VaultV {
                folders: prefix_rewrite_folders(v.folders, from, to),
                notes: prefix_rewrite_notes(v.notes, from, to),
                ..v
            },
        ),
{
    let w = VaultV {
        folders: prefix_rewrite_folders(v.folders, from, to),
        notes: prefix_rewrite_notes(v.notes, from, to),
        ..v
    };
    assert forall|a: int, b: int| 0 <= a < b < w.folders.len() implies folder_key(w.folders[a])
        != folder_key(w.folders[b]) by {
        assert(w.folders[a].id == v.folders[a].id);
        assert(w.folders[b].id == v.folders[b].id);
    }
    assert forall|k: int| 0 <= k < w.folders.len() implies 0 < #[trigger] w.folders[k].id
        < w.next_folder_id by {
        assert(w.folders[k].id == v.folders[k].id);
    }
    assert forall|a: int, b: int| 0 <= a < b < w.notes.len() implies crate::vault::note_key(
        w.notes[a],
    ) != crate::vault::note_key(w.notes[b]) by {
        assert(w.notes[a].id == v.notes[a].id);
        assert(w.notes[b].id == v.notes[b].id);
    }
    assert forall|k: int| 0 <= k < w.notes.len() implies 0 < #[trigger] w.notes[k].id
        < w.next_note_id by {
        assert(w.notes[k].id == v.notes[k].id);
    }
}

impl Vault {
    /// Renames a folder and updates its cosmetic fields: the directory is
    /// carried to the new path, every descendant folder's and note's
    /// stored path under the old prefix is rewritten (separator-bounded),
    /// and backlinks embedding the old key prefix are rewritten.
    #[verifier::rlimit(60)]
    #[verifier::spinoff_prover]
    pub fn update_folder(
        &mut self,
        id: i64,
        name: String,
        parent_id: Option<i64>,
        icon: Option<String>,
        color: Option<String>,
        sort_by: Option<String>,
        sort_order: Option<String>,
        now: &str,
    ) -> (r: Result<Folder, VaultError>)
        requires
            old(self).wf(),
        ensures
            final(self).wf(),
            match r {
                Ok(f) => {
                    &&& has_folder(old(self)@, id as int)
                    &&& final(self)@ == update_folder_t(
                        old(self)@,
                        id as int,
                        name@,
                        opt_id_view(parent_id),
                        opt_str_view(icon),
                        opt_str_view(color),
                        opt_str_view(sort_by),
                        opt_str_view(sort_order),
                        now@,
                    )
                    &&& f@ == final(self)@.folders[folder_at(old(self)@, id as int)]
                    &&& f.name@ == name@
                },
                Err(VaultError::NotFound) => !has_folder(old(self)@, id as int) && final(self)@
                    == old(self)@,
                Err(_) => false,
            },
    {
        let i = match self.find_folder(id) {
            Some(i) => i,
            None => {
                return Err(VaultError::NotFound);
            },
        };
        let ghost v0 = self@;
        let ghost iv = opt_str_view(icon);
        let ghost cv = opt_str_view(color);
        let ghost sbv = opt_str_view(sort_by);
        let ghost sov = opt_str_view(sort_order);
        let ghost vt = update_folder_t(
            v0,
            id as int,
            name@,
            opt_id_view(parent_id),
            iv,
            cv,
            sbv,
            sov,
            now@,
        );
        let old_path = self.folders[i].folder_path.clone();
        let dir = parent_dir(old_path.as_str());
        let new_path = join_path(dir.as_str(), name.as_str());
        if !str_eq(new_path.as_str(), old_path.as_str()) {
            self.move_tree(old_path.as_str(), new_path.as_str());
        }
        self.rewrite_folder_paths(old_path.as_str(), new_path.as_str());
        self.rewrite_note_paths(old_path.as_str(), new_path.as_str());
        proof {
            assert(self@.folders.len() == v0.folders.len());
            assert(self.folders@.len() == self@.folders.len());
        }
        self.folders[i].name = name.clone();
        self.folders[i].parent_id = parent_id;
        self.folders[i].icon = icon;
        self.folders[i].color = color;
        self.folders[i].sort_by = sort_by;
        self.folders[i].sort_order = sort_order;
        let ghost v2 = self@;
        proof {
            assert(folder_views(self.folders@) =~= prefix_rewrite_folders(
                v0.folders,
                old_path@,
                new_path@,
            ).update(
                i as int,
                FolderV {
                    name: name@,
                    parent_id: opt_id_view(parent_id),
                    icon: iv,
                    color: cv,
                    sort_by: sbv,
                    sort_order: sov,
                    ..prefix_rewrite_folders(v0.folders, old_path@, new_path@)[i as int]
                },
            ));
            lemma_prefix_rewrite_wf(v0, old_path@, new_path@);
            assert(wf_v(v2)) by {
                assert forall|a: int, b: int|
                    0 <= a < b < v2.folders.len() implies folder_key(v2.folders[a])
                    != folder_key(v2.folders[b]) by {
                    assert(v2.folders[a].id == v0.folders[a].id);
                    assert(v2.folders[b].id == v0.folders[b].id);
                }
                assert forall|k: int| 0 <= k < v2.folders.len() implies 0
                    < #[trigger] v2.folders[k].id < v2.next_folder_id by {
                    assert(v2.folders[k].id == v0.folders[k].id);
                }
                assert forall|a: int, b: int|
                    0 <= a < b < v2.notes.len() implies crate::vault::note_key(v2.notes[a])
                    != crate::vault::note_key(v2.notes[b]) by {
                    assert(v2.notes[a].id == v0.notes[a].id);
                    assert(v2.notes[b].id == v0.notes[b].id);
                }
                assert forall|k: int| 0 <= k < v2.notes.len() implies 0
                    < #[trigger] v2.notes[k].id < v2.next_note_id by {
                    assert(v2.notes[k].id == v0.notes[k].id);
                }
            }
        }
        let old_rel = relative_link_key(self.base.as_str(), old_path.as_str());
        let new_rel = relative_link_key(self.base.as_str(), new_path.as_str());
        if !str_eq(old_rel.as_str(), new_rel.as_str()) {
            let a1 = str_concat("[[", old_rel.as_str());
            let p1 = str_concat(a1.as_str(), "/");
            let b1 = str_concat("[[", new_rel.as_str());
            let q1 = str_concat(b1.as_str(), "/");
            proof {
                assert(p1@ =~= "[["@ + old_rel@ + seq!['/']) by {
                    reveal_strlit("/");
                }
                assert(q1@ =~= "[["@ + new_rel@ + seq!['/']) by {
                    reveal_strlit("/");
                }
                reveal_strlit("");
                assert(""@ =~= Seq::<char>::empty());
            }
            self.rewrite_links(p1.as_str(), q1.as_str(), "", "", false, true, now);
            proof {
                lemma_rewrite_upto_shape(
                    v2,
                    v2.notes.len() as int,
                    p1@,
                    q1@,
                    ""@,
                    ""@,
                    false,
                    true,
                    now@,
                );
                assert(self@ == vt);
            }
        } else {
            proof {
                assert(self@ == vt);
            }
        }
        let out = self.folders[i].duplicate();
        proof {
            assert(out@ == self@.folders[i as int]);
            assert(folder_at(v0, id as int) == i as int);
            assert(out.name@ == name@);
            assert(self@ == vt);
        }
        Ok(out)
    }
}

} // verus!

verus! {

/// Folder rows in the set flagged (or unflagged) as deleted.
pub open spec fn flag_folders(
    folders: Seq<FolderV>,
    s: Set<int>,
    del: bool,
    at: Option<Seq<char>>,
) -> Seq<FolderV> {
    folders.map_values(
        |f: FolderV| if s.contains(f.id) {
            FolderV { is_deleted: del, deleted_at: at, ..f }
        } else {
            f
        },
    )
}

/// Note rows parented anywhere in the set flagged (or unflagged) as
/// deleted.
pub open spec fn flag_notes(
    notes: Seq<NoteV>,
    s: Set<int>,
    del: bool,
    at: Option<Seq<char>>,
) -> Seq<NoteV> {
    notes.map_values(
        |n: NoteV| if n.parent_id is Some && s.contains(n.parent_id->Some_0) {
            NoteV { is_deleted: del, deleted_at: at, ..n }
        } else {
            n
        },
    )
}

/// Whether some note row with this id is parented in the set.
pub open spec fn note_in_set(notes: Seq<NoteV>, s: Set<int>, id: int) -> bool {
    exists|j: int|
        0 <= j < notes.len() && #[trigger] notes[j].id == id && notes[j].parent_id is Some
            && s.contains(notes[j].parent_id->Some_0)
}

/// The state after a folder soft delete: every descendant folder and every
/// note parented in the closure flagged, their search entries dropped, and
/// the subtree moved into the trash mirror in one directory move.
pub open spec fn delete_folder_t(v: VaultV, id: int, now: Seq<char>) -> VaultV {
    let s = folder_closure_s(v.folders, id);
    let f = v.folders[folder_at(v, id)];
    VaultV {
        notes: flag_notes(v.notes, s, true, Some(now)),
        folders: flag_folders(v.folders, s, true, Some(now)),
        files: move_tree_t(v.files, f.folder_path, trash_path_s(v.base, f.folder_path)),
        search: keep(v.search, |e: SearchV| !note_in_set(v.notes, s, e.id)),
        ..v
    }
}

/// The search entry a restored note gets back, when its restored file is
/// readable.
pub open spec fn reindex_step(v: VaultV, k: int, s: Set<int>) -> VaultV {
    if !(0 <= k < v.notes.len()) {
        v
    } else {
        let n = v.notes[k];
        if n.parent_id is Some && s.contains(n.parent_id->Some_0) {
            match file_content_at(v.files, n.file_path) {
                Some(c) => VaultV {
                    search: upsert_search_t(v.search, n.id, n.title, c),
                    ..v
                },
                None => v,
            }
        } else {
            v
        }
    }
}

/// The re-indexing pass over the first `k` notes.
pub open spec fn reindex_upto(v0: VaultV, k: int, s: Set<int>) -> VaultV
    decreases k,
{
    if k <= 0 {
        v0
    } else {
        reindex_step(reindex_upto(v0, k - 1, s), k - 1, s)
    }
}

pub proof fn lemma_reindex_upto_shape(v0: VaultV, k: int, s: Set<int>)
    requires
        wf_v(v0),
    ensures
        wf_v(reindex_upto(v0, k, s)),
        reindex_upto(v0, k, s) == (VaultV { search: reindex_upto(v0, k, s).search, ..v0 }),
    decreases k,
{
    if k > 0 {
        lemma_reindex_upto_shape(v0, k - 1, s);
        let w = reindex_upto(v0, k - 1, s);
        if 0 <= k - 1 < w.notes.len() {
            let n = w.notes[k - 1];
            if n.parent_id is Some && s.contains(n.parent_id->Some_0) {
                match file_content_at(w.files, n.file_path) {
                    Some(c) => {
                        assert(0 < n.id < w.next_note_id);
                        crate::vault::lemma_search_upsert_wf(
                            w.search,
                            n.id,
                            n.title,
                            c,
                            w.next_note_id,
                        );
                    },
                    None => {},
                }
            }
        }
    }
}

/// The state after a folder restore: flags cleared across the closure, the
/// root re-parented (detached to root when its recorded parent is no
/// longer live), the subtree moved back from the trash mirror, and search
/// entries re-derived from the restored files.
pub open spec fn restore_folder_t(v: VaultV, id: int) -> VaultV {
    let s = folder_closure_s(v.folders, id);
    let i = folder_at(v, id);
    let f = v.folders[i];
    let new_parent = crate::notes::restored_parent(v, f.parent_id);
    let folders1 = flag_folders(v.folders, s, false, None);
    let v1 = VaultV {
        notes: flag_notes(v.notes, s, false, None),
        folders: folders1.update(i, FolderV { parent_id: new_parent, ..folders1[i] }),
        files: move_tree_t(v.files, trash_path_s(v.base, f.folder_path), f.folder_path),
        ..v
    };
    reindex_upto(v1, v1.notes.len() as int, s)
}

/// The state after a permanent folder delete: every contained note's and
/// folder's row dropped, their search entries dropped, and the trash
/// mirror of the subtree removed.
pub open spec fn permanently_delete_folder_t(v: VaultV, id: int) -> VaultV {
    let s = folder_closure_s(v.folders, id);
    let f = v.folders[folder_at(v, id)];
    VaultV {
        notes: keep(
            v.notes,
            |n: NoteV| !(n.parent_id is Some && s.contains(n.parent_id->Some_0)),
        ),
        folders: keep(v.folders, |g: FolderV| !s.contains(g.id)),
        files: remove_tree_t(v.files, trash_path_s(v.base, f.folder_path)),
        search: keep(v.search, |e: SearchV| !note_in_set(v.notes, s, e.id)),
        ..v
    }
}

impl Vault {
    /// Drops the search entries of every note parented in the set.
    fn drop_search_in_set(&mut self, closure: &Vec<i64>)
        requires
            old(self).wf(),
        ensures
            final(self)@ == (VaultV {
                search: keep(
                    old(self)@.search,
                    |e: SearchV| !note_in_set(old(self)@.notes, id_set(closure@), e.id),
                ),
                ..old(self)@
            }),
    {
        let ghost v0 = self@;
        let ghost s = id_set(closure@);
        let mut out: Vec<SearchEntry> = Vec::new();
        let mut j: usize = 0;
        proof {
            assert(crate::vault::search_views(self.search@).subrange(0, 0) =~= Seq::<
                SearchV,
            >::empty());
        }
        while j < self.search.len()
            invariant
                j <= self@.search.len(),
                self.wf(),
                self@ == v0,
                s == id_set(closure@),
                crate::vault::search_views(out@) == keep(
                    crate::vault::search_views(self.search@).subrange(0, j as int),
                    |e: SearchV| !note_in_set(v0.notes, s, e.id),
                ),
            decreases self@.search.len() - j,
        {
            let ghost pre2 = crate::vault::search_views(self.search@).subrange(0, j + 1);
            proof {
                assert(pre2.drop_last() =~= crate::vault::search_views(
                    self.search@,
                ).subrange(0, j as int));
                assert(pre2.last() == self.search@[j as int]@);
            }
            let eid = self.search[j].id;
            let affected: bool = match self.find_note(eid) {
                Some(ni) => match self.notes[ni].parent_id {
                    Some(p) => Self::contains_id(closure, p),
                    None => false,
                },
                None => false,
            };
            proof {
                if affected {
                    assert(note_in_set(v0.notes, s, eid as int));
                } else {
                    if note_in_set(v0.notes, s, eid as int) {
                        let w = choose|w: int|
                            0 <= w < v0.notes.len() && #[trigger] v0.notes[w].id == eid as int
                                && v0.notes[w].parent_id is Some && s.contains(
                                v0.notes[w].parent_id->Some_0,
                            );
                        assert(has_note(v0, eid as int));
                        assert(distinct_keys(v0.notes, |n: NoteV| crate::vault::note_key(n)));
                        assert(w == note_at(v0, eid as int));
                    }
                }
            }
            if !affected {
                let e = SearchEntry {
                    id: self.search[j].id,
                    title: self.search[j].title.clone(),
                    content: self.search[j].content.clone(),
                };
                out.push(e);
            }
            j = j + 1;
            proof {
                assert(crate::vault::search_views(out@) =~= keep(
                    pre2,
                    |e: SearchV| !note_in_set(v0.notes, s, e.id),
                ));
            }
        }
        proof {
            assert(crate::vault::search_views(self.search@).subrange(0, j as int)
                =~= crate::vault::search_views(self.search@));
        }
        self.search = out;
    }

    /// Flags (or unflags) every folder row in the set.
    fn flag_folders_in_set(&mut self, closure: &Vec<i64>, del: bool, at: Option<String>)
        ensures
            final(self)@ == (VaultV {
                folders: flag_folders(
                    old(self)@.folders,
                    id_set(closure@),
                    del,
                    opt_str_view(at),
                ),
                ..old(self)@
            }),
    {
        let ghost v0 = self@;
        let ghost s = id_set(closure@);
        let ghost atv = opt_str_view(at);
        let mut out: Vec<Folder> = Vec::new();
        let mut i: usize = 0;
        while i < self.folders.len()
            invariant
                i <= self@.folders.len(),
                self@ == v0,
                s == id_set(closure@),
                atv == opt_str_view(at),
                folder_views(out@) == flag_folders(
                    folder_views(self.folders@).subrange(0, i as int),
                    s,
                    del,
                    atv,
                ),
            decreases self@.folders.len() - i,
        {
            let ghost pre = folder_views(self.folders@).subrange(0, i as int);
            let ghost pre2 = folder_views(self.folders@).subrange(0, i + 1);
            let ghost out0 = out@;
            let mut e = self.folders[i].duplicate();
            if Self::contains_id(closure, e.id) {
                e.is_deleted = del;
                e.deleted_at = match &at {
                    Some(x) => Some(x.clone()),
                    None => None,
                };
            }
            let ghost ev = e@;
            out.push(e);
            proof {
                let g = |f: FolderV| if s.contains(f.id) {
                    FolderV { is_deleted: del, deleted_at: atv, ..f }
                } else {
                    f
                };
                assert(ev == g(self.folders@[i as int]@));
                assert(out@[out@.len() - 1]@ == ev);
                assert(out0.len() == pre.len()) by {
                    assert(folder_views(out0).len() == out0.len());
                    assert(flag_folders(pre, s, del, atv).len() == pre.len());
                }
                assert forall|k: int| 0 <= k < pre2.len() implies folder_views(out@)[k]
                    == flag_folders(pre2, s, del, atv)[k] by {
                    assert(flag_folders(pre2, s, del, atv)[k] == g(pre2[k]));
                    assert(folder_views(out@)[k] == out@[k]@);
                    if k < i as int {
                        assert(pre2[k] == pre[k]);
                        assert(out@[k] == out0[k]);
                        assert(out0[k]@ == folder_views(out0)[k]);
                    } else {
                        assert(pre2[k] == self.folders@[i as int]@);
                        assert(out@[k]@ == ev);
                    }
                }
                assert(folder_views(out@).len() == out@.len());
                assert(folder_views(out@) =~= flag_folders(pre2, s, del, atv));
            }
            i = i + 1;
        }
        proof {
            assert(folder_views(self.folders@).subrange(0, i as int) =~= folder_views(
                self.folders@,
            ));
        }
        self.folders = out;
    }

    /// Flags (or unflags) every note row parented in the set.
    fn flag_notes_in_set(&mut self, closure: &Vec<i64>, del: bool, at: Option<String>)
        ensures
            final(self)@ == (VaultV {
                notes: flag_notes(old(self)@.notes, id_set(closure@), del, opt_str_view(at)),
                ..old(self)@
            }),
    {
        let ghost v0 = self@;
        let ghost s = id_set(closure@);
        let ghost atv = opt_str_view(at);
        let mut out: Vec<crate::models::Note> = Vec::new();
        let mut i: usize = 0;
        while i < self.notes.len()
            invariant
                i <= self@.notes.len(),
                self@ == v0,
                s == id_set(closure@),
                atv == opt_str_view(at),
                crate::vault::note_views(out@) == flag_notes(
                    crate::vault::note_views(self.notes@).subrange(0, i as int),
                    s,
                    del,
                    atv,
                ),
            decreases self@.notes.len() - i,
        {
            let ghost pre = crate::vault::note_views(self.notes@).subrange(0, i as int);
            let ghost pre2 = crate::vault::note_views(self.notes@).subrange(0, i + 1);
            let ghost out0 = out@;
            let mut e = self.notes[i].duplicate();
            let hit = match e.parent_id {
                Some(p) => Self::contains_id(closure, p),
                None => false,
            };
            if hit {
                e.is_deleted = del;
                e.deleted_at = match &at {
                    Some(x) => Some(x.clone()),
                    None => None,
                };
            }
            let ghost ev = e@;
            out.push(e);
            proof {
                let g = |n: NoteV| if n.parent_id is Some && s.contains(n.parent_id->Some_0) {
                    NoteV { is_deleted: del, deleted_at: atv, ..n }
                } else {
                    n
                };
                assert(ev == g(self.notes@[i as int]@));
                assert(out@[out@.len() - 1]@ == ev);
                assert(out0.len() == pre.len()) by {
                    assert(crate::vault::note_views(out0).len() == out0.len());
                    assert(flag_notes(pre, s, del, atv).len() == pre.len());
                }
                assert forall|k: int| 0 <= k < pre2.len() implies crate::vault::note_views(
                    out@,
                )[k] == flag_notes(pre2, s, del, atv)[k] by {
                    assert(flag_notes(pre2, s, del, atv)[k] == g(pre2[k]));
                    assert(crate::vault::note_views(out@)[k] == out@[k]@);
                    if k < i as int {
                        assert(pre2[k] == pre[k]);
                        assert(out@[k] == out0[k]);
                        assert(out0[k]@ == crate::vault::note_views(out0)[k]);
                    } else {
                        assert(pre2[k] == self.notes@[i as int]@);
                        assert(out@[k]@ == ev);
                    }
                }
                assert(crate::vault::note_views(out@).len() == out@.len());
                assert(crate::vault::note_views(out@) =~= flag_notes(pre2, s, del, atv));
            }
            i = i + 1;
        }
        proof {
            assert(crate::vault::note_views(self.notes@).subrange(0, i as int)
                =~= crate::vault::note_views(self.notes@));
        }
        self.notes = out;
    }
}

} // verus!

verus! {

impl Vault {
    fn walk_hits(&self, from: i64, target: i64, fuel: usize) -> (r: bool)
        requires
            self.wf(),
        ensures
            r == hits_ancestor(self@, from as int, target as int, fuel as nat),
        decreases fuel,
    {
        if from == target {
            return true;
        }
        if fuel == 0 {
            return false;
        }
        match self.find_folder(from) {
            Some(i) => match self.folders[i].parent_id {
                Some(p) => self.walk_hits(p, target, fuel - 1),
                None => false,
            },
            None => false,
        }
    }

    /// Moves a folder under another parent (or to the root). Fails with
    /// `InvalidMove`, changing nothing, when the destination is the folder
    /// itself or one of its own descendants; otherwise carries the
    /// directory, rewrites every stored path under the old prefix, and
    /// rewrites backlinks for the changed key prefix.
    #[verifier::rlimit(60)]
    #[verifier::spinoff_prover]
    pub fn move_folder(&mut self, id: i64, new_parent_id: Option<i64>, now: &str) -> (r: Result<
        Folder,
        VaultError,
    >)
        requires
            old(self).wf(),
        ensures
            final(self).wf(),
            match r {
                Ok(f) => {
                    &&& has_folder(old(self)@, id as int)
                    &&& !move_makes_cycle(old(self)@, id as int, opt_id_view(new_parent_id))
                    &&& final(self)@ == move_folder_t(
                        old(self)@,
                        id as int,
                        opt_id_view(new_parent_id),
                        now@,
                    )
                    &&& f@ == final(self)@.folders[folder_at(old(self)@, id as int)]
                    &&& opt_id_view(f.parent_id) == opt_id_view(new_parent_id)
                    &&& f.updated_at@ == now@
                },
                Err(VaultError::InvalidMove) => {
                    &&& has_folder(old(self)@, id as int)
                    &&& move_makes_cycle(old(self)@, id as int, opt_id_view(new_parent_id))
                    &&& final(self)@ == old(self)@
                },
                Err(VaultError::NotFound) => {
                    &&& (!has_folder(old(self)@, id as int) || (new_parent_id is Some
                        && !has_folder(old(self)@, new_parent_id->Some_0 as int)))
                    &&& final(self)@ == old(self)@
                },
                Err(VaultError::IOFailure) => {
                    &&& has_folder(old(self)@, id as int)
                    &&& !move_makes_cycle(old(self)@, id as int, opt_id_view(new_parent_id))
                    &&& (match new_parent_id {
                        Some(p) => has_folder(old(self)@, p as int),
                        None => true,
                    })
                    &&& file_name_s(
                        old(self)@.folders[folder_at(old(self)@, id as int)].folder_path,
                    ).len() == 0
                    &&& final(self)@ == old(self)@
                },
                Err(_) => false,
            },
    {
        let i = match self.find_folder(id) {
            Some(i) => i,
            None => {
                return Err(VaultError::NotFound);
            },
        };
        let ghost v0 = self@;
        match new_parent_id {
            Some(p) => {
                if p == id {
                    return Err(VaultError::InvalidMove);
                }
                if self.walk_hits(p, id, self.folders.len()) {
                    return Err(VaultError::InvalidMove);
                }
            },
            None => {},
        }
        let dir: String = match new_parent_id {
            Some(p) => match self.find_folder(p) {
                Some(fi) => self.folders[fi].folder_path.clone(),
                None => {
                    return Err(VaultError::NotFound);
                },
            },
            None => self.base.clone(),
        };
        let old_path = self.folders[i].folder_path.clone();
        let fname = file_name(old_path.as_str());
        if fname.as_str().unicode_len() == 0 {
            return Err(VaultError::IOFailure);
        }
        let new_path = join_path(dir.as_str(), fname.as_str());
        let ghost vt = move_folder_t(v0, id as int, opt_id_view(new_parent_id), now@);
        if !str_eq(new_path.as_str(), old_path.as_str()) {
            self.move_tree(old_path.as_str(), new_path.as_str());
        }
        self.rewrite_folder_paths(old_path.as_str(), new_path.as_str());
        self.rewrite_note_paths(old_path.as_str(), new_path.as_str());
        proof {
            assert(self@.folders.len() == v0.folders.len());
            assert(self.folders@.len() == self@.folders.len());
        }
        self.folders[i].parent_id = new_parent_id;
        self.folders[i].updated_at = now.to_owned();
        let ghost v2 = self@;
        proof {
            assert(folder_views(self.folders@) =~= prefix_rewrite_folders(
                v0.folders,
                old_path@,
                new_path@,
            ).update(
                i as int,
                FolderV {
                    parent_id: opt_id_view(new_parent_id),
                    updated_at: now@,
                    ..prefix_rewrite_folders(v0.folders, old_path@, new_path@)[i as int]
                },
            ));
            lemma_prefix_rewrite_wf(v0, old_path@, new_path@);
            assert(wf_v(v2)) by {
                assert forall|a: int, b: int|
                    0 <= a < b < v2.folders.len() implies folder_key(v2.folders[a])
                    != folder_key(v2.folders[b]) by {
                    assert(v2.folders[a].id == v0.folders[a].id);
                    assert(v2.folders[b].id == v0.folders[b].id);
                }
                assert forall|k: int| 0 <= k < v2.folders.len() implies 0
                    < #[trigger] v2.folders[k].id < v2.next_folder_id by {
                    assert(v2.folders[k].id == v0.folders[k].id);
                }
                assert forall|a: int, b: int|
                    0 <= a < b < v2.notes.len() implies crate::vault::note_key(v2.notes[a])
                    != crate::vault::note_key(v2.notes[b]) by {
                    assert(v2.notes[a].id == v0.notes[a].id);
                    assert(v2.notes[b].id == v0.notes[b].id);
                }
                assert forall|k: int| 0 <= k < v2.notes.len() implies 0
                    < #[trigger] v2.notes[k].id < v2.next_note_id by {
                    assert(v2.notes[k].id == v0.notes[k].id);
                }
            }
        }
        let old_rel = relative_link_key(self.base.as_str(), old_path.as_str());
        let new_rel = relative_link_key(self.base.as_str(), new_path.as_str());
        if !str_eq(old_rel.as_str(), new_rel.as_str()) {
            let a1 = str_concat("[[", old_rel.as_str());
            let p1 = str_concat(a1.as_str(), "/");
            let b1 = str_concat("[[", new_rel.as_str());
            let q1 = str_concat(b1.as_str(), "/");
            proof {
                assert(p1@ =~= "[["@ + old_rel@ + seq!['/']) by {
                    reveal_strlit("/");
                }
                assert(q1@ =~= "[["@ + new_rel@ + seq!['/']) by {
                    reveal_strlit("/");
                }
                reveal_strlit("");
                assert(""@ =~= Seq::<char>::empty());
            }
            self.rewrite_links(p1.as_str(), q1.as_str(), "", "", false, true, now);
            proof {
                lemma_rewrite_upto_shape(
                    v2,
                    v2.notes.len() as int,
                    p1@,
                    q1@,
                    ""@,
                    ""@,
                    false,
                    true,
                    now@,
                );
                assert(self@ == vt);
            }
        } else {
            proof {
                assert(self@ == vt);
            }
        }
        let out = self.folders[i].duplicate();
        proof {
            assert(out@ == self@.folders[i as int]);
            assert(folder_at(v0, id as int) == i as int);
            assert(self@ == vt);
        }
        Ok(out)
    }

    /// Soft-deletes a folder and every descendant: the whole closure of
    /// folders and the notes parented in it are flagged, their search
    /// entries dropped, and the subtree is moved into the trash mirror in
    /// one directory move.
    pub fn delete_folder(&mut self, id: i64, now: &str) -> (r: Result<(), VaultError>)
        requires
            old(self).wf(),
        ensures
            final(self).wf(),
            match r {
                Ok(()) => has_folder(old(self)@, id as int) && final(self)@ == delete_folder_t(
                    old(self)@,
                    id as int,
                    now@,
                ),
                Err(VaultError::NotFound) => !has_folder(old(self)@, id as int) && final(self)@
                    == old(self)@,
                Err(_) => false,
            },
    {
        let i = match self.find_folder(id) {
            Some(i) => i,
            None => {
                return Err(VaultError::NotFound);
            },
        };
        let ghost v0 = self@;
        let closure = self.folder_closure(id);
        let folder_path = self.folders[i].folder_path.clone();
        self.drop_search_in_set(&closure);
        self.flag_notes_in_set(&closure, true, Some(now.to_owned()));
        self.flag_folders_in_set(&closure, true, Some(now.to_owned()));
        let tp = crate::paths::trash_path(self.base.as_str(), folder_path.as_str());
        self.move_tree(folder_path.as_str(), tp.as_str());
        proof {
            assert(self@ == delete_folder_t(v0, id as int, now@));
            assert(wf_v(self@)) by {
                let s = folder_closure_s(v0.folders, id as int);
                assert forall|a: int, b: int|
                    0 <= a < b < self@.notes.len() implies crate::vault::note_key(
                    self@.notes[a],
                ) != crate::vault::note_key(self@.notes[b]) by {
                    assert(self@.notes[a].id == v0.notes[a].id);
                    assert(self@.notes[b].id == v0.notes[b].id);
                }
                assert forall|k: int| 0 <= k < self@.notes.len() implies 0
                    < #[trigger] self@.notes[k].id < self@.next_note_id by {
                    assert(self@.notes[k].id == v0.notes[k].id);
                }
                assert forall|a: int, b: int|
                    0 <= a < b < self@.folders.len() implies folder_key(self@.folders[a])
                    != folder_key(self@.folders[b]) by {
                    assert(self@.folders[a].id == v0.folders[a].id);
                    assert(self@.folders[b].id == v0.folders[b].id);
                }
                assert forall|k: int| 0 <= k < self@.folders.len() implies 0
                    < #[trigger] self@.folders[k].id < self@.next_folder_id by {
                    assert(self@.folders[k].id == v0.folders[k].id);
                }
                crate::vault::lemma_keep_distinct(
                    v0.search,
                    |e: SearchV| !note_in_set(v0.notes, s, e.id),
                    |e: SearchV| crate::vault::search_key(e),
                );
                crate::vault::lemma_keep_index(
                    v0.search,
                    |e: SearchV| !note_in_set(v0.notes, s, e.id),
                );
                assert forall|k: int| 0 <= k < self@.search.len() implies 0
                    < #[trigger] self@.search[k].id < self@.next_note_id by {
                    let x = keep(v0.search, |e: SearchV| !note_in_set(v0.notes, s, e.id))[k];
                    let j = choose|j: int| 0 <= j < v0.search.len() && v0.search[j] == x;
                    assert(0 < v0.search[j].id < v0.next_note_id);
                }
            }
        }
        Ok(())
    }

    /// Restores a soft-deleted folder and every descendant: flags cleared
    /// across the closure, the root re-parented (detached to root when its
    /// recorded parent is no longer live), the subtree moved back from the
    /// trash mirror, and search entries re-derived from the restored
    /// files.
    pub fn restore_folder(&mut self, id: i64) -> (r: Result<(), VaultError>)
        requires
            old(self).wf(),
        ensures
            final(self).wf(),
            match r {
                Ok(()) => has_folder(old(self)@, id as int) && final(self)@ == restore_folder_t(
                    old(self)@,
                    id as int,
                ),
                Err(VaultError::NotFound) => !has_folder(old(self)@, id as int) && final(self)@
                    == old(self)@,
                Err(_) => false,
            },
    {
        let i = match self.find_folder(id) {
            Some(i) => i,
            None => {
                return Err(VaultError::NotFound);
            },
        };
        let ghost v0 = self@;
        let closure = self.folder_closure(id);
        let folder_path = self.folders[i].folder_path.clone();
        let new_parent = match self.folders[i].parent_id {
            Some(p) => if self.folder_is_live(p) {
                Some(p)
            } else {
                None
            },
            None => None,
        };
        self.flag_notes_in_set(&closure, false, None);
        self.flag_folders_in_set(&closure, false, None);
        proof {
            assert(self@.folders.len() == v0.folders.len());
            assert(self.folders@.len() == self@.folders.len());
        }
        self.folders[i].parent_id = new_parent;
        let tp = crate::paths::trash_path(self.base.as_str(), folder_path.as_str());
        self.move_tree(tp.as_str(), folder_path.as_str());
        let ghost v1 = self@;
        let ghost s = id_set(closure@);
        proof {
            let folders1 = flag_folders(v0.folders, s, false, None);
            assert(folder_views(self.folders@) =~= folders1.update(
                i as int,
                FolderV {
                    parent_id: opt_id_view(new_parent),
                    ..folders1[i as int]
                },
            ));
            assert(wf_v(v1)) by {
                assert forall|a: int, b: int|
                    0 <= a < b < v1.notes.len() implies crate::vault::note_key(v1.notes[a])
                    != crate::vault::note_key(v1.notes[b]) by {
                    assert(v1.notes[a].id == v0.notes[a].id);
                    assert(v1.notes[b].id == v0.notes[b].id);
                }
                assert forall|k: int| 0 <= k < v1.notes.len() implies 0
                    < #[trigger] v1.notes[k].id < v1.next_note_id by {
                    assert(v1.notes[k].id == v0.notes[k].id);
                }
                assert forall|a: int, b: int|
                    0 <= a < b < v1.folders.len() implies folder_key(v1.folders[a])
                    != folder_key(v1.folders[b]) by {
                    assert(v1.folders[a].id == v0.folders[a].id);
                    assert(v1.folders[b].id == v0.folders[b].id);
                }
                assert forall|k: int| 0 <= k < v1.folders.len() implies 0
                    < #[trigger] v1.folders[k].id < v1.next_folder_id by {
                    assert(v1.folders[k].id == v0.folders[k].id);
                }
            }
            assert(restored_parent(v0, v0.folders[i as int].parent_id) == opt_id_view(
                new_parent,
            ));
        }
        self.reindex_in_set(&closure);
        proof {
            lemma_reindex_upto_shape(v1, v1.notes.len() as int, s);
            assert(self@ == restore_folder_t(v0, id as int));
        }
        Ok(())
    }

    /// Re-derives the search entry of every note parented in the set from
    /// its file, where the file is readable.
    fn reindex_in_set(&mut self, closure: &Vec<i64>)
        requires
            old(self).wf(),
        ensures
            final(self).wf(),
            final(self)@ == reindex_upto(
                old(self)@,
                old(self)@.notes.len() as int,
                id_set(closure@),
            ),
    {
        let ghost v0 = self@;
        let ghost s = id_set(closure@);
        let n_notes = self.notes.len();
        let mut k: usize = 0;
        while k < n_notes
            invariant
                k <= n_notes,
                n_notes == v0.notes.len(),
                wf_v(v0),
                s == id_set(closure@),
                self@ == reindex_upto(v0, k as int, s),
                self@.notes.len() == v0.notes.len(),
            decreases n_notes - k,
        {
            let ghost vcur = self@;
            proof {
                lemma_reindex_upto_shape(v0, k as int, s);
            }
            let hit = match self.notes[k].parent_id {
                Some(p) => Self::contains_id(closure, p),
                None => false,
            };
            if hit {
                let fp = self.notes[k].file_path.clone();
                match self.read_file(fp.as_str()) {
                    Some(c) => {
                        let nid = self.notes[k].id;
                        let title = self.notes[k].title.clone();
                        self.upsert_search(nid, title.as_str(), c.as_str());
                        proof {
                            assert(self@ == reindex_step(vcur, k as int, s));
                        }
                    },
                    None => {
                        proof {
                            assert(self@ == reindex_step(vcur, k as int, s));
                        }
                    },
                }
            } else {
                proof {
                    assert(self@ == reindex_step(vcur, k as int, s));
                }
            }
            k = k + 1;
        }
        proof {
            lemma_reindex_upto_shape(v0, n_notes as int, s);
        }
    }

    /// Permanently deletes a folder and every descendant: all contained
    /// note and folder rows are dropped together with their search
    /// entries, and the trash mirror of the subtree is removed.
    pub fn permanently_delete_folder(&mut self, id: i64) -> (r: Result<(), VaultError>)
        requires
            old(self).wf(),
        ensures
            final(self).wf(),
            match r {
                Ok(()) => has_folder(old(self)@, id as int) && final(self)@
                    == permanently_delete_folder_t(old(self)@, id as int),
                Err(VaultError::NotFound) => !has_folder(old(self)@, id as int) && final(self)@
                    == old(self)@,
                Err(_) => false,
            },
    {
        let i = match self.find_folder(id) {
            Some(i) => i,
            None => {
                return Err(VaultError::NotFound);
            },
        };
        let ghost v0 = self@;
        let closure = self.folder_closure(id);
        let ghost s = id_set(closure@);
        let folder_path = self.folders[i].folder_path.clone();
        self.drop_search_in_set(&closure);

        let mut out_notes: Vec<crate::models::Note> = Vec::new();
        let mut k: usize = 0;
        proof {
            assert(crate::vault::note_views(self.notes@).subrange(0, 0) =~= Seq::<
                NoteV,
            >::empty());
        }
        while k < self.notes.len()
            invariant
                k <= self@.notes.len(),
                s == id_set(closure@),
                crate::vault::note_views(out_notes@) == keep(
                    crate::vault::note_views(self.notes@).subrange(0, k as int),
                    |n: NoteV| !(n.parent_id is Some && s.contains(n.parent_id->Some_0)),
                ),
            decreases self@.notes.len() - k,
        {
            let ghost pre2 = crate::vault::note_views(self.notes@).subrange(0, k + 1);
            proof {
                assert(pre2.drop_last() =~= crate::vault::note_views(self.notes@).subrange(
                    0,
                    k as int,
                ));
                assert(pre2.last() == self.notes@[k as int]@);
            }
            let hit = match self.notes[k].parent_id {
                Some(p) => Self::contains_id(&closure, p),
                None => false,
            };
            if !hit {
                let e = self.notes[k].duplicate();
                out_notes.push(e);
            }
            k = k + 1;
            proof {
                assert(crate::vault::note_views(out_notes@) =~= keep(
                    pre2,
                    |n: NoteV| !(n.parent_id is Some && s.contains(n.parent_id->Some_0)),
                ));
            }
        }
        proof {
            assert(crate::vault::note_views(self.notes@).subrange(
                0,
                self@.notes.len() as int,
            ) =~= crate::vault::note_views(self.notes@));
        }
        self.notes = out_notes;

        let mut out_folders: Vec<Folder> = Vec::new();
        let mut j: usize = 0;
        proof {
            assert(folder_views(self.folders@).subrange(0, 0) =~= Seq::<FolderV>::empty());
        }
        while j < self.folders.len()
            invariant
                j <= self@.folders.len(),
                s == id_set(closure@),
                folder_views(out_folders@) == keep(
                    folder_views(self.folders@).subrange(0, j as int),
                    |g: FolderV| !s.contains(g.id),
                ),
            decreases self@.folders.len() - j,
        {
            let ghost pre2 = folder_views(self.folders@).subrange(0, j + 1);
            proof {
                assert(pre2.drop_last() =~= folder_views(self.folders@).subrange(0, j as int));
                assert(pre2.last() == self.folders@[j as int]@);
            }
            if !Self::contains_id(&closure, self.folders[j].id) {
                let e = self.folders[j].duplicate();
                out_folders.push(e);
            }
            j = j + 1;
            proof {
                assert(folder_views(out_folders@) =~= keep(
                    pre2,
                    |g: FolderV| !s.contains(g.id),
                ));
            }
        }
        proof {
            assert(folder_views(self.folders@).subrange(0, self@.folders.len() as int)
                =~= folder_views(self.folders@));
        }
        self.folders = out_folders;

        let tp = crate::paths::trash_path(self.base.as_str(), folder_path.as_str());
        let mut out_files: Vec<crate::models::FileEntry> = Vec::new();
        let mut w: usize = 0;
        proof {
            assert(crate::vault::file_views(self.files@).subrange(0, 0) =~= Seq::<
                crate::models::FileV,
            >::empty());
        }
        while w < self.files.len()
            invariant
                w <= self@.files.len(),
                crate::vault::file_views(out_files@) == keep(
                    crate::vault::file_views(self.files@).subrange(0, w as int),
                    |f: crate::models::FileV| !crate::paths::under_prefix_s(f.path, tp@),
                ),
            decreases self@.files.len() - w,
        {
            let ghost pre2 = crate::vault::file_views(self.files@).subrange(0, w + 1);
            proof {
                assert(pre2.drop_last() =~= crate::vault::file_views(self.files@).subrange(
                    0,
                    w as int,
                ));
                assert(pre2.last() == self.files@[w as int]@);
            }
            if !crate::paths::under_prefix(self.files[w].path.as_str(), tp.as_str()) {
                let e = crate::models::FileEntry {
                    path: self.files[w].path.clone(),
                    content: self.files[w].content.clone(),
                };
                out_files.push(e);
            }
            w = w + 1;
            proof {
                assert(crate::vault::file_views(out_files@) =~= keep(
                    pre2,
                    |f: crate::models::FileV| !crate::paths::under_prefix_s(f.path, tp@),
                ));
            }
        }
        proof {
            assert(crate::vault::file_views(self.files@).subrange(
                0,
                self@.files.len() as int,
            ) =~= crate::vault::file_views(self.files@));
        }
        self.files = out_files;

        proof {
            assert(self@ == permanently_delete_folder_t(v0, id as int));
            assert(wf_v(self@)) by {
                let pn = |n: NoteV| !(n.parent_id is Some && s.contains(n.parent_id->Some_0));
                let pf = |g: FolderV| !s.contains(g.id);
                let ps = |e: SearchV| !note_in_set(v0.notes, s, e.id);
                crate::vault::lemma_keep_distinct(
                    v0.notes,
                    pn,
                    |n: NoteV| crate::vault::note_key(n),
                );
                crate::vault::lemma_keep_index(v0.notes, pn);
                assert forall|t: int| 0 <= t < self@.notes.len() implies 0
                    < #[trigger] self@.notes[t].id < self@.next_note_id by {
                    let x = keep(v0.notes, pn)[t];
                    let y = choose|y: int| 0 <= y < v0.notes.len() && v0.notes[y] == x;
                    assert(0 < v0.notes[y].id < v0.next_note_id);
                }
                crate::vault::lemma_keep_distinct(v0.folders, pf, |g: FolderV| folder_key(g));
                crate::vault::lemma_keep_index(v0.folders, pf);
                assert forall|t: int| 0 <= t < self@.folders.len() implies 0
                    < #[trigger] self@.folders[t].id < self@.next_folder_id by {
                    let x = keep(v0.folders, pf)[t];
                    let y = choose|y: int| 0 <= y < v0.folders.len() && v0.folders[y] == x;
                    assert(0 < v0.folders[y].id < v0.next_folder_id);
                }
                crate::vault::lemma_keep_distinct(
                    v0.search,
                    ps,
                    |e: SearchV| crate::vault::search_key(e),
                );
                crate::vault::lemma_keep_index(v0.search, ps);
                assert forall|t: int| 0 <= t < self@.search.len() implies 0
                    < #[trigger] self@.search[t].id < self@.next_note_id by {
                    let x = keep(v0.search, ps)[t];
                    let y = choose|y: int| 0 <= y < v0.search.len() && v0.search[y] == x;
                    assert(0 < v0.search[y].id < v0.next_note_id);
                }
            }
        }
        Ok(())
    }
}

} // verus!
