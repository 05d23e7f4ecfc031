//! The preview generator: derives a bounded plain-text summary from markdown
//! content. Lines are trimmed, blank lines dropped, the rest joined with
//! single spaces; a fixed set of markdown punctuation is removed; the result
//! is trimmed and clipped to its first hundred characters with an ellipsis
//! marker. The preview is a cache: it is always re-derivable from content.

use vstd::prelude::*;

use crate::chars::chars_of;
use crate::chars::string_of;

verus! {

/// ASCII whitespace.
pub open spec fn is_space(c: char) -> bool {
    c == ' ' || c == '\t' || c == '\r' || c == '\n' || c == '\u{000B}' || c == '\u{000C}'
}

/// The markdown punctuation removed from previews.
pub open spec fn is_md_punct(c: char) -> bool {
    c == '#' || c == '*' || c == '-' || c == '`' || c == '>' || c == '[' || c == ']' || c == '('
        || c == ')'
}

pub open spec fn trim_start_s(s: Seq<char>) -> Seq<char>
    decreases s.len(),
{
    if s.len() > 0 && is_space(s[0]) {
        trim_start_s(s.drop_first())
    } else {
        s
    }
}

pub open spec fn trim_end_s(s: Seq<char>) -> Seq<char>
    decreases s.len(),
{
    if s.len() > 0 && is_space(s.last()) {
        trim_end_s(s.drop_last())
    } else {
        s
    }
}

/// The sequence with leading and trailing whitespace removed.
pub open spec fn trim_s(s: Seq<char>) -> Seq<char> {
    trim_end_s(trim_start_s(s))
}

/// The index of the first occurrence of `c` in `p`, or `-1`.
pub open spec fn first_idx_of(p: Seq<char>, c: char) -> int
    decreases p.len(),
{
    if p.len() == 0 {
        -1
    } else if p[0] == c {
        0
    } else {
        let r = first_idx_of(p.drop_first(), c);
        if r < 0 {
            -1
        } else {
            r + 1
        }
    }
}

/// The text split at newlines, in order.
pub open spec fn split_lines_s(s: Seq<char>) -> Seq<Seq<char>>
    decreases s.len(),
{
    if s.len() == 0 {
        Seq::<Seq<char>>::empty()
    } else {
        let i = first_idx_of(s, '\n');
        if 0 <= i < s.len() {
            seq![s.subrange(0, i)] + split_lines_s(s.subrange(i + 1, s.len() as int))
        } else {
            seq![s]
        }
    }
}

/// Each line trimmed, blank lines dropped.
pub open spec fn clean_lines_s(ls: Seq<Seq<char>>) -> Seq<Seq<char>>
    decreases ls.len(),
{
    if ls.len() == 0 {
        Seq::<Seq<char>>::empty()
    } else {
        let t = trim_s(ls.last());
        if t.len() == 0 {
            clean_lines_s(ls.drop_last())
        } else {
            clean_lines_s(ls.drop_last()).push(t)
        }
    }
}

/// Lines joined with single spaces.
pub open spec fn join_lines_s(ls: Seq<Seq<char>>) -> Seq<char>
    decreases ls.len(),
{
    if ls.len() == 0 {
        Seq::<char>::empty()
    } else if ls.len() == 1 {
        ls[0]
    } else {
        join_lines_s(ls.drop_last()) + seq![' '] + ls.last()
    }
}

/// The text with markdown punctuation removed.
pub open spec fn strip_md_s(s: Seq<char>) -> Seq<char>
    decreases s.len(),
{
    if s.len() == 0 {
        Seq::<char>::empty()
    } else if is_md_punct(s.last()) {
        strip_md_s(s.drop_last())
    } else {
        strip_md_s(s.drop_last()).push(s.last())
    }
}

/// The text clipped to its first hundred characters, with an ellipsis
/// marker when something was cut.
pub open spec fn clip_s(s: Seq<char>) -> Seq<char> {
    if s.len() > 100 {
        s.subrange(0, 100) + seq!['.', '.', '.']
    } else {
        s
    }
}

/// What `generate_preview` returns for the given content.
pub open spec fn preview_s(content: Seq<char>) -> Seq<char> {
    clip_s(trim_s(strip_md_s(join_lines_s(clean_lines_s(split_lines_s(content))))))
}

/// A preview never exceeds one hundred characters plus the three-character
/// ellipsis marker.
pub proof fn lemma_preview_len(content: Seq<char>)
    ensures
        preview_s(content).len() <= 103,
{
}

proof fn lemma_first_idx_absent_append(cur: Seq<char>, t: Seq<char>)
    requires
        first_idx_of(cur, '\n') < 0,
    ensures
        first_idx_of(cur + seq!['\n'] + t, '\n') == cur.len(),
    decreases cur.len(),
{
    let w = cur + seq!['\n'] + t;
    if cur.len() == 0 {
        assert(w[0] == '\n');
    } else {
        assert(w[0] == cur[0]);
        assert(cur[0] != '\n');
        lemma_first_idx_absent_append(cur.drop_first(), t);
        assert(w.drop_first() =~= cur.drop_first() + seq!['\n'] + t);
    }
}

proof fn lemma_split_head(cur: Seq<char>, rest: Seq<char>)
    requires
        first_idx_of(cur, '\n') < 0,
        rest.len() > 0,
        rest[0] == '\n',
    ensures
        split_lines_s(cur + rest) == seq![cur] + split_lines_s(rest.drop_first()),
{
    let w = cur + rest;
    assert(w =~= cur + seq!['\n'] + rest.drop_first());
    lemma_first_idx_absent_append(cur, rest.drop_first());
    assert(first_idx_of(w, '\n') == cur.len());
    assert(w.subrange(0, cur.len() as int) =~= cur);
    assert(w.subrange(cur.len() + 1 as int, w.len() as int) =~= rest.drop_first());
}

fn trim_chars(v: &Vec<char>) -> (r: Vec<char>)
    ensures
        r@ == trim_s(v@),
{
    let n = v.len();
    let mut lo: usize = 0;
    proof {
        assert(v@.subrange(0, n as int) =~= v@);
    }
    while lo < n && (v[lo] == ' ' || v[lo] == '\t' || v[lo] == '\r' || v[lo] == '\n' || v[lo]
        == '\u{000B}' || v[lo] == '\u{000C}')
        invariant
            lo <= n,
            n == v@.len(),
            trim_start_s(v@) == trim_start_s(v@.subrange(lo as int, n as int)),
        decreases n - lo,
    {
        proof {
            let s = v@.subrange(lo as int, n as int);
            assert(s[0] == v@[lo as int]);
            assert(is_space(s[0]));
            assert(s.drop_first() =~= v@.subrange(lo + 1, n as int));
        }
        lo = lo + 1;
    }
    proof {
        let s = v@.subrange(lo as int, n as int);
        if s.len() > 0 {
            assert(s[0] == v@[lo as int]);
            assert(!is_space(s[0]));
        }
        assert(trim_start_s(v@) == s);
    }
    let mut hi: usize = n;
    while hi > lo && (v[hi - 1] == ' ' || v[hi - 1] == '\t' || v[hi - 1] == '\r' || v[hi - 1]
        == '\n' || v[hi - 1] == '\u{000B}' || v[hi - 1] == '\u{000C}')
        invariant
            lo <= hi,
            hi <= n,
            n == v@.len(),
            trim_start_s(v@) == v@.subrange(lo as int, n as int),
            trim_end_s(v@.subrange(lo as int, n as int)) == trim_end_s(
                v@.subrange(lo as int, hi as int),
            ),
        decreases hi,
    {
        proof {
            let s = v@.subrange(lo as int, hi as int);
            assert(s.last() == v@[hi - 1]);
            assert(is_space(s.last()));
            assert(s.drop_last() =~= v@.subrange(lo as int, hi - 1));
        }
        hi = hi - 1;
    }
    proof {
        let s = v@.subrange(lo as int, hi as int);
        if s.len() > 0 {
            assert(s.last() == v@[hi - 1]);
            assert(!is_space(s.last()));
        }
        assert(trim_s(v@) == s);
    }
    let mut out: Vec<char> = Vec::new();
    let mut j: usize = lo;
    while j < hi
        invariant
            lo <= j,
            j <= hi,
            hi <= v@.len(),
            out@ == v@.subrange(lo as int, j as int),
        decreases hi - j,
    {
        out.push(v[j]);
        j = j + 1;
        proof {
            assert(out@ =~= v@.subrange(lo as int, j as int));
        }
    }
    out
}

spec fn views_of(ls: Seq<Vec<char>>) -> Seq<Seq<char>> {
    ls.map_values(|l: Vec<char>| l@)
}

fn split_lines_exec(v: &Vec<char>) -> (r: Vec<Vec<char>>)
    ensures
        views_of(r@) == split_lines_s(v@),
{
    let n = v.len();
    let mut lines: Vec<Vec<char>> = Vec::new();
    let mut cur: Vec<char> = Vec::new();
    let mut i: usize = 0;
    proof {
        assert(v@.subrange(0, n as int) =~= v@);
        assert(cur@ + v@.subrange(0, n as int) =~= v@);
        assert(views_of(lines@) + split_lines_s(v@) =~= split_lines_s(v@));
    }
    while i < n
        invariant
            i <= n,
            n == v@.len(),
            first_idx_of(cur@, '\n') < 0,
            split_lines_s(v@) == views_of(lines@) + split_lines_s(
                cur@ + v@.subrange(i as int, n as int),
            ),
        decreases n - i,
    {
        let ghost rest = v@.subrange(i as int, n as int);
        let c = v[i];
        if c == '\n' {
            proof {
                lemma_split_head(cur@, rest);
                assert(rest.drop_first() =~= v@.subrange(i + 1, n as int));
                assert(views_of(lines@) + (seq![cur@] + split_lines_s(rest.drop_first()))
                    =~= views_of(lines@.push(cur)) + split_lines_s(rest.drop_first()));
            }
            lines.push(cur);
            cur = Vec::new();
        } else {
            proof {
                assert(rest[0] == c);
                assert(cur@ + rest =~= cur@.push(c) + v@.subrange(i + 1, n as int));
                let cur2 = cur@.push(c);
                assert(cur2.drop_last() =~= cur@);
                assert(cur2.last() == c);
                assert(first_idx_of(cur2, '\n') < 0) by {
                    lemma_first_idx_push(cur@, c);
                }
            }
            cur.push(c);
        }
        i = i + 1;
    }
    proof {
        assert(cur@ + v@.subrange(n as int, n as int) =~= cur@);
    }
    if cur.len() > 0 {
        proof {
            assert(split_lines_s(cur@) =~= seq![cur@]);
            assert(views_of(lines@) + seq![cur@] =~= views_of(lines@.push(cur)));
        }
        lines.push(cur);
    } else {
        proof {
            assert(split_lines_s(cur@) =~= Seq::<Seq<char>>::empty());
            assert(views_of(lines@) + Seq::<Seq<char>>::empty() =~= views_of(lines@));
        }
    }
    lines
}

proof fn lemma_first_idx_push(s: Seq<char>, c: char)
    requires
        first_idx_of(s, '\n') < 0,
        c != '\n',
    ensures
        first_idx_of(s.push(c), '\n') < 0,
    decreases s.len(),
{
    let w = s.push(c);
    assert(w.len() == s.len() + 1);
    if s.len() == 0 {
        assert(w[0] == c);
        assert(w.drop_first() =~= Seq::<char>::empty());
        assert(first_idx_of(w.drop_first(), '\n') < 0);
        assert(first_idx_of(w, '\n') < 0);
    } else {
        assert(w[0] == s[0]);
        assert(s[0] != '\n');
        lemma_first_idx_push(s.drop_first(), c);
        assert(w.drop_first() =~= s.drop_first().push(c));
        assert(first_idx_of(w.drop_first(), '\n') < 0);
        assert(first_idx_of(w, '\n') < 0);
    }
}

fn strip_md_chars(v: &Vec<char>) -> (r: Vec<char>)
    ensures
        r@ == strip_md_s(v@),
{
    let n = v.len();
    let mut out: Vec<char> = Vec::new();
    let mut i: usize = 0;
    proof {
        assert(v@.subrange(0, 0).len() == 0);
    }
    while i < n
        invariant
            i <= n,
            n == v@.len(),
            out@ == strip_md_s(v@.subrange(0, i as int)),
        decreases n - i,
    {
        let c = v[i];
        proof {
            let pre = v@.subrange(0, i + 1);
            assert(pre.drop_last() =~= v@.subrange(0, i as int));
            assert(pre.last() == c);
        }
        if !(c == '#' || c == '*' || c == '-' || c == '`' || c == '>' || c == '[' || c == ']' || c
            == '(' || c == ')') {
            out.push(c);
        }
        i = i + 1;
    }
    proof {
        assert(v@.subrange(0, n as int) =~= v@);
    }
    out
}

/// Derives the bounded plain-text preview of the given markdown content.
/// Deterministic: the result is a function of the content alone.
pub fn generate_preview(content: &str) -> (r: String)
    ensures
        r@ == preview_s(content@),
{
    let v = chars_of(content);
    let raw_lines = split_lines_exec(&v);
    let mut joined: Vec<char> = Vec::new();
    let mut started = false;
    let mut k: usize = 0;
    proof {
        assert(views_of(raw_lines@.subrange(0, 0)).len() == 0);
        assert(clean_lines_s(views_of(raw_lines@.subrange(0, 0))).len() == 0);
    }
    while k < raw_lines.len()
        invariant
            k <= raw_lines@.len(),
            views_of(raw_lines@) == split_lines_s(v@),
            joined@ == join_lines_s(clean_lines_s(views_of(raw_lines@.subrange(0, k as int)))),
            started == (clean_lines_s(views_of(raw_lines@.subrange(0, k as int))).len() != 0),
        decreases raw_lines@.len() - k,
    {
        let t = trim_chars(&raw_lines[k]);
        proof {
            let pre2 = views_of(raw_lines@.subrange(0, k + 1));
            assert(pre2.drop_last() =~= views_of(raw_lines@.subrange(0, k as int)));
            assert(pre2.last() == raw_lines@[k as int]@);
        }
        if t.len() > 0 {
            let ghost fl = clean_lines_s(views_of(raw_lines@.subrange(0, k as int)));
            let ghost fl2 = clean_lines_s(views_of(raw_lines@.subrange(0, k + 1)));
            proof {
                assert(fl2 == fl.push(t@));
                assert(fl.push(t@).drop_last() =~= fl);
            }
            if started {
                joined.push(' ');
                let ghost j0 = joined@;
                let mut q: usize = 0;
                while q < t.len()
                    invariant
                        q <= t@.len(),
                        joined@ == j0 + t@.subrange(0, q as int),
                    decreases t@.len() - q,
                {
                    joined.push(t[q]);
                    q = q + 1;
                    proof {
                        assert(joined@ =~= j0 + t@.subrange(0, q as int));
                    }
                }
                proof {
                    assert(t@.subrange(0, t@.len() as int) =~= t@);
                    assert(joined@ =~= join_lines_s(fl) + seq![' '] + t@);
                    assert(fl2.len() >= 2) by {
                        assert(fl.len() >= 1);
                    }
                    assert(join_lines_s(fl2) == join_lines_s(fl) + seq![' '] + t@);
                }
            } else {
                let ghost j0 = joined@;
                let mut q: usize = 0;
                while q < t.len()
                    invariant
                        q <= t@.len(),
                        joined@ == j0 + t@.subrange(0, q as int),
                    decreases t@.len() - q,
                {
                    joined.push(t[q]);
                    q = q + 1;
                    proof {
                        assert(joined@ =~= j0 + t@.subrange(0, q as int));
                    }
                }
                proof {
                    assert(t@.subrange(0, t@.len() as int) =~= t@);
                    assert(j0.len() == 0);
                    assert(joined@ =~= t@);
                    assert(fl2.len() == 1);
                    assert(join_lines_s(fl2) == t@);
                }
            }
            started = true;
        }
        k = k + 1;
    }
    proof {
        assert(raw_lines@.subrange(0, raw_lines@.len() as int) =~= raw_lines@);
    }
    let stripped = strip_md_chars(&joined);
    let trimmed = trim_chars(&stripped);
    let m = trimmed.len();
    if m > 100 {
        let mut clipped: Vec<char> = Vec::new();
        let mut q: usize = 0;
        while q < 100
            invariant
                q <= 100,
                100 < trimmed@.len(),
                clipped@ == trimmed@.subrange(0, q as int),
            decreases 100 - q,
        {
            clipped.push(trimmed[q]);
            q = q + 1;
            proof {
                assert(clipped@ =~= trimmed@.subrange(0, q as int));
            }
        }
        clipped.push('.');
        clipped.push('.');
        clipped.push('.');
        proof {
            assert(clipped@ =~= trimmed@.subrange(0, 100) + seq!['.', '.', '.']);
        }
        string_of(&clipped)
    } else {
        string_of(&trimmed)
    }
}

} // verus!

verus! {

/// Free of newlines.
pub open spec fn nl_free(s: Seq<char>) -> bool {
    forall|i: int| 0 <= i < s.len() ==> #[trigger] s[i] != '\n'
}

/// Free of the stripped markdown punctuation.
pub open spec fn punct_free(s: Seq<char>) -> bool {
    forall|i: int| 0 <= i < s.len() ==> !is_md_punct(#[trigger] s[i])
}

proof fn lemma_first_idx_all(s: Seq<char>, c: char)
    ensures
        first_idx_of(s, c) <= s.len(),
        first_idx_of(s, c) < 0 ==> forall|x: int| 0 <= x < s.len() ==> #[trigger] s[x] != c,
        forall|x: int| 0 <= x < first_idx_of(s, c) ==> #[trigger] s[x] != c,
    decreases s.len(),
{
    if s.len() > 0 && s[0] != c {
        lemma_first_idx_all(s.drop_first(), c);
        assert forall|x: int| 0 <= x < first_idx_of(s, c) implies #[trigger] s[x] != c by {
            if x > 0 {
                assert(s.drop_first()[x - 1] == s[x]);
            }
        }
        if first_idx_of(s, c) < 0 {
            assert forall|x: int| 0 <= x < s.len() implies #[trigger] s[x] != c by {
                if x > 0 {
                    assert(s.drop_first()[x - 1] == s[x]);
                }
            }
        }
    }
}

proof fn lemma_nl_free_no_idx(s: Seq<char>)
    requires
        nl_free(s),
    ensures
        first_idx_of(s, '\n') < 0,
    decreases s.len(),
{
    if s.len() > 0 {
        assert(s[0] != '\n');
        assert(nl_free(s.drop_first())) by {
            assert(forall|x: int|
                0 <= x < s.drop_first().len() ==> #[trigger] s.drop_first()[x] == s[x + 1]);
        }
        lemma_nl_free_no_idx(s.drop_first());
    }
}

proof fn lemma_split_pieces(s: Seq<char>)
    ensures
        forall|j: int|
            0 <= j < split_lines_s(s).len() ==> nl_free(#[trigger] split_lines_s(s)[j]),
    decreases s.len(),
{
    if s.len() > 0 {
        let i = first_idx_of(s, '\n');
        lemma_first_idx_all(s, '\n');
        if 0 <= i < s.len() {
            lemma_split_pieces(s.subrange(i + 1, s.len() as int));
            assert forall|j: int| 0 <= j < split_lines_s(s).len() implies nl_free(
                #[trigger] split_lines_s(s)[j],
            ) by {
                if j == 0 {
                    assert(split_lines_s(s)[0] == s.subrange(0, i));
                    assert(forall|x: int|
                        0 <= x < i ==> #[trigger] s.subrange(0, i)[x] == s[x]);
                } else {
                    assert(split_lines_s(s)[j] == split_lines_s(
                        s.subrange(i + 1, s.len() as int),
                    )[j - 1]);
                }
            }
        } else {
            assert(nl_free(s));
        }
    }
}

proof fn lemma_trim_start_props(x: Seq<char>)
    ensures
        trim_start_s(x).len() > 0 ==> !is_space(trim_start_s(x)[0]),
        nl_free(x) ==> nl_free(trim_start_s(x)),
        punct_free(x) ==> punct_free(trim_start_s(x)),
    decreases x.len(),
{
    if x.len() > 0 && is_space(x[0]) {
        assert(nl_free(x) ==> nl_free(x.drop_first())) by {
            if nl_free(x) {
                assert(forall|w: int|
                    0 <= w < x.drop_first().len() ==> #[trigger] x.drop_first()[w] == x[w
                        + 1]);
            }
        }
        assert(punct_free(x) ==> punct_free(x.drop_first())) by {
            if punct_free(x) {
                assert(forall|w: int|
                    0 <= w < x.drop_first().len() ==> #[trigger] x.drop_first()[w] == x[w
                        + 1]);
            }
        }
        lemma_trim_start_props(x.drop_first());
    }
}

proof fn lemma_trim_end_props(x: Seq<char>)
    ensures
        trim_end_s(x).len() > 0 ==> !is_space(trim_end_s(x).last()),
        trim_end_s(x).len() > 0 ==> trim_end_s(x)[0] == x[0],
        nl_free(x) ==> nl_free(trim_end_s(x)),
        punct_free(x) ==> punct_free(trim_end_s(x)),
        x.len() > 0 && !is_space(x[0]) && trim_end_s(x).len() > 0 ==> !is_space(
            trim_end_s(x)[0],
        ),
    decreases x.len(),
{
    if x.len() > 0 && is_space(x.last()) {
        assert(nl_free(x) ==> nl_free(x.drop_last()));
        assert(punct_free(x) ==> punct_free(x.drop_last()));
        lemma_trim_end_props(x.drop_last());
    }
}

/// A trimmed sequence does not trim further.
proof fn lemma_trim_fixed(x: Seq<char>)
    requires
        x.len() == 0 || (!is_space(x[0]) && !is_space(x.last())),
    ensures
        trim_s(x) == x,
{
    assert(trim_start_s(x) == x);
    assert(trim_end_s(x) == x);
}

proof fn lemma_clean_pieces(ls: Seq<Seq<char>>)
    requires
        forall|j: int| 0 <= j < ls.len() ==> nl_free(#[trigger] ls[j]),
    ensures
        forall|j: int|
            0 <= j < clean_lines_s(ls).len() ==> nl_free(#[trigger] clean_lines_s(ls)[j])
                && clean_lines_s(ls)[j].len() > 0,
    decreases ls.len(),
{
    if ls.len() > 0 {
        assert(forall|j: int|
            0 <= j < ls.drop_last().len() ==> nl_free(#[trigger] ls.drop_last()[j]));
        lemma_clean_pieces(ls.drop_last());
        let t = trim_s(ls.last());
        if t.len() > 0 {
            assert(nl_free(t)) by {
                lemma_trim_start_props(ls.last());
                lemma_trim_end_props(trim_start_s(ls.last()));
            }
            assert forall|j: int| 0 <= j < clean_lines_s(ls).len() implies nl_free(
                #[trigger] clean_lines_s(ls)[j],
            ) && clean_lines_s(ls)[j].len() > 0 by {
                if j < clean_lines_s(ls).len() - 1 {
                    assert(clean_lines_s(ls)[j] == clean_lines_s(ls.drop_last())[j]);
                } else {
                    assert(clean_lines_s(ls)[j] == t);
                }
            }
        }
    }
}

proof fn lemma_join_nl_free(ls: Seq<Seq<char>>)
    requires
        forall|j: int| 0 <= j < ls.len() ==> nl_free(#[trigger] ls[j]),
    ensures
        nl_free(join_lines_s(ls)),
    decreases ls.len(),
{
    if ls.len() > 1 {
        assert(forall|j: int|
            0 <= j < ls.drop_last().len() ==> nl_free(#[trigger] ls.drop_last()[j]));
        lemma_join_nl_free(ls.drop_last());
        let w = join_lines_s(ls.drop_last()) + seq![' '] + ls.last();
        assert forall|i: int| 0 <= i < w.len() implies #[trigger] w[i] != '\n' by {
            if i < join_lines_s(ls.drop_last()).len() {
            } else if i == join_lines_s(ls.drop_last()).len() {
                assert(w[i] == ' ');
            } else {
                assert(w[i] == ls.last()[i - join_lines_s(ls.drop_last()).len() - 1]);
            }
        }
    } else if ls.len() == 1 {
        assert(join_lines_s(ls) == ls[0]);
    }
}

proof fn lemma_strip_props(x: Seq<char>)
    ensures
        punct_free(strip_md_s(x)),
        nl_free(x) ==> nl_free(strip_md_s(x)),
        punct_free(x) ==> strip_md_s(x) == x,
    decreases x.len(),
{
    if x.len() > 0 {
        assert(nl_free(x) ==> nl_free(x.drop_last()));
        assert(punct_free(x) ==> punct_free(x.drop_last()));
        lemma_strip_props(x.drop_last());
        if !is_md_punct(x.last()) {
            let w = strip_md_s(x.drop_last()).push(x.last());
            assert forall|i: int| 0 <= i < w.len() implies !is_md_punct(
                #[trigger] w[i],
            ) by {
                if i < w.len() - 1 {
                    assert(w[i] == strip_md_s(x.drop_last())[i]);
                } else {
                    assert(w[i] == x.last());
                }
            }
            if nl_free(x) {
                assert forall|i: int| 0 <= i < w.len() implies #[trigger] w[i] != '\n' by {
                    if i < w.len() - 1 {
                        assert(w[i] == strip_md_s(x.drop_last())[i]);
                    } else {
                        assert(w[i] == x.last());
                    }
                }
            }
            if punct_free(x) {
                assert(strip_md_s(x) =~= x);
            }
        }
    }
}

/// Running the generator on its own output changes nothing: a preview
/// holds no newlines or stripped punctuation and is already trimmed, so
/// the pipeline passes it through.
pub proof fn lemma_preview_idempotent(content: Seq<char>)
    ensures
        preview_s(preview_s(content)) == preview_s(content),
{
    let pieces = split_lines_s(content);
    let cleaned = clean_lines_s(pieces);
    let joined = join_lines_s(cleaned);
    let stripped = strip_md_s(joined);
    let t = trim_s(stripped);
    let r = clip_s(t);
    assert(r == preview_s(content));

    lemma_split_pieces(content);
    lemma_clean_pieces(pieces);
    lemma_join_nl_free(cleaned);
    lemma_strip_props(joined);
    lemma_trim_start_props(stripped);
    lemma_trim_end_props(trim_start_s(stripped));
    assert(nl_free(t)) by {
        lemma_trim_start_props(stripped);
        lemma_trim_end_props(trim_start_s(stripped));
    }
    assert(punct_free(t)) by {
        assert(punct_free(stripped));
    }
    assert(t.len() > 0 ==> !is_space(t[0]) && !is_space(t.last()));

    if r.len() == 0 {
        assert(split_lines_s(r) =~= Seq::<Seq<char>>::empty());
        assert(clean_lines_s(Seq::<Seq<char>>::empty()) =~= Seq::<Seq<char>>::empty());
        assert(join_lines_s(Seq::<Seq<char>>::empty()) =~= Seq::<char>::empty());
        assert(strip_md_s(Seq::<char>::empty()) =~= Seq::<char>::empty());
        assert(trim_s(Seq::<char>::empty()) =~= Seq::<char>::empty());
        assert(preview_s(r) =~= r);
    } else {
        assert(t.len() > 0) by {
            if t.len() == 0 {
                assert(r == t);
            }
        }
        assert(nl_free(r) && punct_free(r) && !is_space(r[0]) && !is_space(r.last())) by {
            reveal_strlit("...");
            if t.len() > 100 {
                assert(r == t.subrange(0, 100) + seq!['.', '.', '.']);
                assert forall|i: int| 0 <= i < r.len() implies #[trigger] r[i] != '\n'
                    && !is_md_punct(r[i]) by {
                    if i < 100 {
                        assert(r[i] == t[i]);
                    } else {
                        assert(r[i] == '.');
                    }
                }
                assert(r[0] == t[0]);
                assert(r.last() == '.');
            }
        }
        lemma_nl_free_no_idx(r);
        assert(split_lines_s(r) == seq![r]);
        assert(clean_lines_s(seq![r]) =~= seq![trim_s(r)]) by {
            assert(seq![r].drop_last() =~= Seq::<Seq<char>>::empty());
            assert(seq![r].last() == r);
            lemma_trim_fixed(r);
            assert(clean_lines_s(Seq::<Seq<char>>::empty()) =~= Seq::<Seq<char>>::empty());
        }
        lemma_trim_fixed(r);
        assert(clean_lines_s(seq![r]) =~= seq![r]);
        assert(join_lines_s(seq![r]) == r);
        lemma_strip_props(r);
        assert(strip_md_s(r) == r);
        assert(trim_s(r) == r);
        assert(preview_s(r) == clip_s(r));
        if t.len() <= 100 {
            assert(r == t);
            assert(clip_s(r) == r);
        } else {
            assert(r.len() == 103);
            assert(clip_s(r) =~= r) by {
                assert(clip_s(r) == r.subrange(0, 100) + seq!['.', '.', '.']);
                assert forall|i: int| 0 <= i < 103 implies #[trigger] clip_s(r)[i]
                    == r[i] by {
                    if i < 100 {
                        assert(clip_s(r)[i] == r.subrange(0, 100)[i]);
                    } else {
                        assert(clip_s(r)[i] == '.');
                        assert(r[i] == '.');
                    }
                }
            }
        }
    }
}

} // verus!
