//! Path arithmetic for the content tree. Paths are strings whose components
//! are separated by `/`; every file and folder path is derived from the
//! content root, the ancestor folder names and the leaf name. The relative
//! link key of a note is its path relative to the content root with the
//! extension stripped; it is the identity embedded in `[[...]]` references.

use vstd::prelude::*;

use crate::chars::begins_with;
use crate::chars::begins_with_exec;
use crate::chars::chars_of;
use crate::chars::string_of;

verus! {

/// Joining a path onto a base: an empty path leaves the base, an absolute
/// path replaces it, and anything else is appended behind a separator.
pub open spec fn join_path_s(a: Seq<char>, b: Seq<char>) -> Seq<char> {
    if b.len() == 0 {
        a
    } else if b[0] == '/' {
        b
    } else if a.len() == 0 {
        b
    } else {
        a + seq!['/'] + b
    }
}

/// The index of the last occurrence of `c` in `p`, or `-1` if it does not
/// occur.
pub open spec fn last_idx_of(p: Seq<char>, c: char) -> int
    decreases p.len(),
{
    if p.len() == 0 {
        -1
    } else if p.last() == c {
        p.len() - 1
    } else {
        last_idx_of(p.drop_last(), c)
    }
}

/// Everything before the last separator: the enclosing directory.
pub open spec fn parent_dir_s(p: Seq<char>) -> Seq<char> {
    let i = last_idx_of(p, '/');
    if i < 0 {
        Seq::<char>::empty()
    } else {
        p.subrange(0, i)
    }
}

/// Everything after the last separator: the leaf name.
pub open spec fn file_name_s(p: Seq<char>) -> Seq<char> {
    p.subrange(last_idx_of(p, '/') + 1, p.len() as int)
}

/// The path with the extension of its leaf removed. A dot that begins the
/// leaf marks a hidden name, not an extension.
pub open spec fn strip_ext_s(p: Seq<char>) -> Seq<char> {
    let si = last_idx_of(p, '/');
    let di = last_idx_of(p, '.');
    if di > si + 1 {
        p.subrange(0, di)
    } else {
        p
    }
}

/// The path relative to `base`: the suffix behind `base/`, empty for the
/// base itself, and the path unchanged when it does not lie under the base.
pub open spec fn rel_of_s(base: Seq<char>, p: Seq<char>) -> Seq<char> {
    if p == base {
        Seq::<char>::empty()
    } else if begins_with(p, base + seq!['/']) {
        p.subrange(base.len() + 1 as int, p.len() as int)
    } else {
        p
    }
}

/// Separators normalized: every backslash becomes a forward slash.
pub open spec fn norm_seps_s(s: Seq<char>) -> Seq<char>
    decreases s.len(),
{
    if s.len() == 0 {
        Seq::<char>::empty()
    } else if s.last() == '\\' {
        norm_seps_s(s.drop_last()).push('/')
    } else {
        norm_seps_s(s.drop_last()).push(s.last())
    }
}

/// The canonical link key of a path: relative to the content root, the
/// extension stripped, separators normalized to `/`.
pub open spec fn link_key_s(base: Seq<char>, p: Seq<char>) -> Seq<char> {
    norm_seps_s(strip_ext_s(rel_of_s(base, p)))
}

/// Where a path is mirrored while soft-deleted: under the hidden trash
/// subtree of the content root.
pub open spec fn trash_path_s(base: Seq<char>, p: Seq<char>) -> Seq<char> {
    join_path_s(join_path_s(base, seq!['.', 't', 'r', 'a', 's', 'h']), rel_of_s(base, p))
}

/// A path rewritten from one directory prefix to another; paths outside the
/// old prefix are untouched. The comparison is separator-bounded.
pub open spec fn replace_prefix_s(p: Seq<char>, from: Seq<char>, to: Seq<char>) -> Seq<char> {
    if p == from {
        to
    } else if begins_with(p, from + seq!['/']) {
        to + p.subrange(from.len() as int, p.len() as int)
    } else {
        p
    }
}

/// Whether `p` is `from` itself or lies under the directory `from`.
pub open spec fn under_prefix_s(p: Seq<char>, from: Seq<char>) -> bool {
    p == from || begins_with(p, from + seq!['/'])
}

pub fn join_path(a: &str, b: &str) -> (r: String)
    ensures
        r@ == join_path_s(a@, b@),
{
    let vb = chars_of(b);
    if vb.len() == 0 {
        return a.to_owned();
    }
    if vb[0] == '/' {
        return b.to_owned();
    }
    let mut v = chars_of(a);
    if v.len() == 0 {
        return b.to_owned();
    }
    v.push('/');
    let mut i: usize = 0;
    while i < vb.len()
        invariant
            i <= vb@.len(),
            v@ == a@ + seq!['/'] + vb@.subrange(0, i as int),
        decreases vb@.len() - i,
    {
        v.push(vb[i]);
        i = i + 1;
        proof {
            assert(v@ =~= a@ + seq!['/'] + vb@.subrange(0, i as int));
        }
    }
    proof {
        assert(vb@.subrange(0, vb@.len() as int) =~= b@);
        assert(v@ =~= a@ + seq!['/'] + b@);
    }
    string_of(&v)
}

/// Appends two strings.
pub fn str_concat(a: &str, b: &str) -> (r: String)
    ensures
        r@ == a@ + b@,
{
    let vb = chars_of(b);
    let mut v = chars_of(a);
    let mut i: usize = 0;
    while i < vb.len()
        invariant
            i <= vb@.len(),
            v@ == a@ + vb@.subrange(0, i as int),
        decreases vb@.len() - i,
    {
        v.push(vb[i]);
        i = i + 1;
        proof {
            assert(v@ =~= a@ + vb@.subrange(0, i as int));
        }
    }
    proof {
        assert(vb@.subrange(0, vb@.len() as int) =~= b@);
        assert(v@ =~= a@ + b@);
    }
    string_of(&v)
}

fn last_idx_of_exec(v: &Vec<char>, c: char) -> (r: Option<usize>)
    ensures
        match r {
            Some(i) => last_idx_of(v@, c) == i as int && i < v@.len(),
            None => last_idx_of(v@, c) == -1,
        },
{
    let mut i: usize = v.len();
    proof {
        assert(v@.subrange(0, v@.len() as int) =~= v@);
    }
    while i > 0
        invariant
            i <= v@.len(),
            last_idx_of(v@.subrange(0, i as int), c) == last_idx_of(v@, c),
        decreases i,
    {
        if v[i - 1] == c {
            proof {
                let pre = v@.subrange(0, i as int);
                assert(pre.last() == c);
            }
            return Some(i - 1);
        }
        proof {
            let pre = v@.subrange(0, i as int);
            assert(pre.last() != c);
            assert(pre.drop_last() =~= v@.subrange(0, i - 1));
        }
        i = i - 1;
    }
    proof {
        assert(v@.subrange(0, 0).len() == 0);
    }
    None
}

pub fn parent_dir(p: &str) -> (r: String)
    ensures
        r@ == parent_dir_s(p@),
{
    let v = chars_of(p);
    match last_idx_of_exec(&v, '/') {
        Some(i) => {
            let mut out: Vec<char> = Vec::new();
            let mut j: usize = 0;
            while j < i
                invariant
                    j <= i,
                    i < v@.len(),
                    out@ == v@.subrange(0, j as int),
                decreases i - j,
            {
                out.push(v[j]);
                j = j + 1;
                proof {
                    assert(out@ =~= v@.subrange(0, j as int));
                }
            }
            string_of(&out)
        },
        None => String::new(),
    }
}

pub fn file_name(p: &str) -> (r: String)
    ensures
        r@ == file_name_s(p@),
{
    let v = chars_of(p);
    let n = v.len();
    let start: usize = match last_idx_of_exec(&v, '/') {
        Some(i) => i + 1,
        None => 0,
    };
    let mut out: Vec<char> = Vec::new();
    let mut j: usize = start;
    while j < v.len()
        invariant
            start <= j,
            j <= v@.len(),
            out@ == v@.subrange(start as int, j as int),
        decreases v@.len() - j,
    {
        out.push(v[j]);
        j = j + 1;
        proof {
            assert(out@ =~= v@.subrange(start as int, j as int));
        }
    }
    proof {
        assert(out@ =~= file_name_s(p@));
    }
    string_of(&out)
}

pub fn strip_ext(p: &str) -> (r: String)
    ensures
        r@ == strip_ext_s(p@),
{
    let v = chars_of(p);
    let n = v.len();
    let si: Option<usize> = last_idx_of_exec(&v, '/');
    let di: Option<usize> = last_idx_of_exec(&v, '.');
    let cut: Option<usize> = match di {
        Some(d) => match si {
            Some(s) => if d > s + 1 {
                Some(d)
            } else {
                None
            },
            None => if d > 0 {
                Some(d)
            } else {
                None
            },
        },
        None => None,
    };
    match cut {
        Some(d) => {
            let mut out: Vec<char> = Vec::new();
            let mut j: usize = 0;
            while j < d
                invariant
                    j <= d,
                    d < v@.len(),
                    out@ == v@.subrange(0, j as int),
                decreases d - j,
            {
                out.push(v[j]);
                j = j + 1;
                proof {
                    assert(out@ =~= v@.subrange(0, j as int));
                }
            }
            string_of(&out)
        },
        None => p.to_owned(),
    }
}

pub fn rel_of(base: &str, p: &str) -> (r: String)
    ensures
        r@ == rel_of_s(base@, p@),
{
    if crate::chars::str_eq(p, base) {
        return String::new();
    }
    let vp = chars_of(p);
    let mut vb = chars_of(base);
    vb.push('/');
    proof {
        assert(vb@ =~= base@ + seq!['/']);
    }
    if begins_with_exec(&vp, &vb) {
        let mut out: Vec<char> = Vec::new();
        let mut j: usize = vb.len();
        proof {
            assert(out@ =~= vp@.subrange(vb@.len() as int, vb@.len() as int));
        }
        while j < vp.len()
            invariant
                vb@.len() <= j,
                j <= vp@.len(),
                vb@.len() == base@.len() + 1,
                out@ == vp@.subrange(vb@.len() as int, j as int),
            decreases vp@.len() - j,
        {
            out.push(vp[j]);
            j = j + 1;
            proof {
                assert(out@ =~= vp@.subrange(vb@.len() as int, j as int));
            }
        }
        proof {
            assert(out@ =~= p@.subrange(base@.len() + 1 as int, p@.len() as int));
        }
        string_of(&out)
    } else {
        p.to_owned()
    }
}

/// The full path of a note file: the content root, then the folder path,
/// then the title with the markdown extension.
pub fn resolve_note_path(base: &str, folder_path: &Option<String>, title: &str) -> (r: String)
    ensures
        r@ == join_path_s(
            join_path_s(
                base@,
                match folder_path {
                    Some(f) => f@,
                    None => Seq::<char>::empty(),
                },
            ),
            title@ + ".md"@,
        ),
{
    let dir = match folder_path {
        Some(f) => join_path(base, f.as_str()),
        None => {
            proof {
                reveal_strlit("");
                assert(""@ =~= Seq::<char>::empty());
            }
            join_path(base, "")
        },
    };
    let leaf = str_concat(title, ".md");
    join_path(dir.as_str(), leaf.as_str())
}

/// The full path of a folder: the content root, then the parent path, then
/// the folder name.
pub fn resolve_folder_path(base: &str, parent_path: &Option<String>, name: &str) -> (r: String)
    ensures
        r@ == join_path_s(
            join_path_s(
                base@,
                match parent_path {
                    Some(f) => f@,
                    None => Seq::<char>::empty(),
                },
            ),
            name@,
        ),
{
    let dir = match parent_path {
        Some(f) => join_path(base, f.as_str()),
        None => {
            proof {
                reveal_strlit("");
                assert(""@ =~= Seq::<char>::empty());
            }
            join_path(base, "")
        },
    };
    join_path(dir.as_str(), name)
}

/// The canonical link key of a path.
pub fn relative_link_key(base: &str, p: &str) -> (r: String)
    ensures
        r@ == link_key_s(base@, p@),
{
    let rel = rel_of(base, p);
    let stripped = strip_ext(rel.as_str());
    let v = chars_of(stripped.as_str());
    let mut out: Vec<char> = Vec::new();
    let mut i: usize = 0;
    proof {
        assert(v@.subrange(0, 0).len() == 0);
    }
    while i < v.len()
        invariant
            i <= v@.len(),
            out@ == norm_seps_s(v@.subrange(0, i as int)),
        decreases v@.len() - i,
    {
        let c = v[i];
        proof {
            let pre2 = v@.subrange(0, i + 1);
            assert(pre2.drop_last() =~= v@.subrange(0, i as int));
            assert(pre2.last() == c);
        }
        if c == '\\' {
            out.push('/');
        } else {
            out.push(c);
        }
        i = i + 1;
    }
    proof {
        assert(v@.subrange(0, v@.len() as int) =~= v@);
    }
    string_of(&out)
}

/// The trash mirror of a path.
pub fn trash_path(base: &str, p: &str) -> (r: String)
    ensures
        r@ == trash_path_s(base@, p@),
{
    let tb = join_path(base, ".trash");
    let rel = rel_of(base, p);
    proof {
        assert(".trash"@ =~= seq!['.', 't', 'r', 'a', 's', 'h']) by {
            reveal_strlit(".trash");
        }
    }
    join_path(tb.as_str(), rel.as_str())
}

/// Rewrites a path from one directory prefix to another; separator-bounded.
pub fn replace_prefix(p: &str, from: &str, to: &str) -> (r: String)
    ensures
        r@ == replace_prefix_s(p@, from@, to@),
{
    if crate::chars::str_eq(p, from) {
        return to.to_owned();
    }
    let vp = chars_of(p);
    let mut vf = chars_of(from);
    vf.push('/');
    proof {
        assert(vf@ =~= from@ + seq!['/']);
    }
    if begins_with_exec(&vp, &vf) {
        let mut out = chars_of(to);
        let mut j: usize = from.unicode_len();
        proof {
            assert(out@ =~= to@ + vp@.subrange(from@.len() as int, from@.len() as int));
        }
        while j < vp.len()
            invariant
                from@.len() <= j,
                j <= vp@.len(),
                out@ == to@ + vp@.subrange(from@.len() as int, j as int),
            decreases vp@.len() - j,
        {
            out.push(vp[j]);
            j = j + 1;
            proof {
                assert(out@ =~= to@ + vp@.subrange(from@.len() as int, j as int));
            }
        }
        string_of(&out)
    } else {
        p.to_owned()
    }
}

/// Whether `p` equals `from` or lies under it, separator-bounded.
pub fn under_prefix(p: &str, from: &str) -> (r: bool)
    ensures
        r == under_prefix_s(p@, from@),
{
    if crate::chars::str_eq(p, from) {
        return true;
    }
    let vp = chars_of(p);
    let mut vf = chars_of(from);
    vf.push('/');
    proof {
        assert(vf@ =~= from@ + seq!['/']);
    }
    begins_with_exec(&vp, &vf)
}

} // verus!
