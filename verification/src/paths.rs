//! Path text: globs, joining, and the directory a config lives in.
//!
//! Paths are handled as text with `/` as the separator.

use vstd::prelude::*;

use crate::order::{lemma_lt_irreflexive, lemma_lt_total, lemma_lt_transitive, seq_lt, chars_lt};
use crate::text::{chars_eq, chars_of, contains_char, copy_range};

verus! {

/// `true` when `entry` contains a glob metacharacter: `*`, `?`, `[` or `]`.
pub open spec fn glob_like(entry: Seq<char>) -> bool {
    entry.contains('*') || entry.contains('?') || entry.contains('[') || entry.contains(']')
}

/// `true` when `entry` contains glob metacharacters.
pub fn is_glob(entry: &str) -> (r: bool)
    ensures
        r == glob_like(entry@),
{
    let chars = chars_of(entry);
    contains_char(chars.as_slice(), '*') || contains_char(chars.as_slice(), '?') || contains_char(
        chars.as_slice(),
        '[',
    ) || contains_char(chars.as_slice(), ']')
}

// ---------------------------------------------------------------------------
// Components
// ---------------------------------------------------------------------------

/// `true` when `t` starts with a separator: an absolute path.
pub open spec fn starts_root(t: Seq<char>) -> bool {
    t.len() > 0 && t[0] == '/'
}

/// `true` when the first piece of `t` is `.`.
pub open spec fn starts_cur(t: Seq<char>) -> bool {
    t.len() > 0 && t[0] == '.' && (t.len() == 1 || t[1] == '/')
}

/// `t` without its leading separators and `.` pieces.
pub open spec fn trim_front(t: Seq<char>) -> Seq<char>
    decreases t.len(),
{
    if t.len() > 0 && (t[0] == '/' || starts_cur(t)) {
        trim_front(t.drop_first())
    } else {
        t
    }
}

/// `t` without its trailing separators and `.` pieces.
pub open spec fn trim_back(t: Seq<char>) -> Seq<char>
    decreases t.len(),
{
    if t.len() > 0 && (t.last() == '/' || (t.last() == '.' && (t.len() == 1 || t[t.len() - 2]
        == '/'))) {
        trim_back(t.drop_last())
    } else {
        t
    }
}

/// The length of the first piece of `t`, up to the first separator.
pub open spec fn piece_len(t: Seq<char>) -> nat
    decreases t.len(),
{
    if t.len() == 0 || t[0] == '/' {
        0
    } else {
        1 + piece_len(t.drop_first())
    }
}

/// Trimming never lengthens, and leaves no separator in front.
pub proof fn lemma_trim_front(t: Seq<char>)
    ensures
        trim_front(t).len() <= t.len(),
        trim_front(t).len() > 0 ==> trim_front(t)[0] != '/',
        trim_front(t).len() > 0 ==> !starts_cur(trim_front(t)),
        trim_front(t) == t.skip(t.len() - trim_front(t).len()),
    decreases t.len(),
{
    if t.len() > 0 && (t[0] == '/' || starts_cur(t)) {
        lemma_trim_front(t.drop_first());
        assert(t.drop_first().skip(t.drop_first().len() - trim_front(t).len()) =~= t.skip(
            t.len() - trim_front(t).len(),
        ));
    } else {
        assert(t.skip(0) =~= t);
    }
}

/// A piece is no longer than the text, and a text that does not start with a
/// separator has a non-empty first piece free of separators.
pub proof fn lemma_piece_len(t: Seq<char>)
    ensures
        piece_len(t) <= t.len(),
        t.len() > 0 && t[0] != '/' ==> piece_len(t) >= 1,
        forall|i: int| 0 <= i < piece_len(t) ==> t[i] != '/',
        piece_len(t) < t.len() ==> t[piece_len(t) as int] == '/',
    decreases t.len(),
{
    if t.len() > 0 && t[0] != '/' {
        lemma_piece_len(t.drop_first());
        assert forall|i: int| 0 <= i < piece_len(t) implies t[i] != '/' by {
            if i > 0 {
                assert(t[i] == t.drop_first()[i - 1]);
            }
        }
        if piece_len(t) < t.len() {
            assert(t[piece_len(t) as int] == t.drop_first()[piece_len(t.drop_first()) as int]);
        }
    }
}

/// The pieces of `t` that name something, read after the start of a path:
/// empty and `.` pieces are skipped.
pub open spec fn body_parts(t: Seq<char>) -> Seq<Seq<char>>
    decreases t.len(),
{
    let u = trim_front(t);
    proof {
        lemma_trim_front(t);
        lemma_piece_len(u);
    }
    if u.len() == 0 {
        Seq::empty()
    } else {
        let n = piece_len(u);
        seq![u.take(n as int)] + body_parts(u.skip(n as int))
    }
}

/// The components of a path, as `std::path::Path::components` reads a Unix
/// path: a leading `/` is the root, a leading `.` piece is the current
/// directory, and every other non-empty piece other than `.` follows in order.
/// Each component is given by its text.
pub open spec fn components(t: Seq<char>) -> Seq<Seq<char>> {
    if starts_root(t) {
        seq![seq!['/']] + body_parts(t.drop_first())
    } else if starts_cur(t) {
        seq![seq!['.']] + body_parts(t.drop_first())
    } else {
        body_parts(t)
    }
}

/// The kind of a component, in the order `std::path::Component` declares
/// them: root, current directory, parent directory, then names.
pub open spec fn part_rank(p: Seq<char>) -> int {
    if p == seq!['/'] {
        0
    } else if p == seq!['.'] {
        1
    } else if p == seq!['.', '.'] {
        2
    } else {
        3
    }
}

/// Component order: by kind, then names by their text.
pub open spec fn part_lt(a: Seq<char>, b: Seq<char>) -> bool {
    part_rank(a) < part_rank(b) || (part_rank(a) == part_rank(b) && seq_lt(a, b))
}

/// Lexicographic order on component lists.
pub open spec fn parts_lt(a: Seq<Seq<char>>, b: Seq<Seq<char>>) -> bool
    decreases a.len(),
{
    if a.len() == 0 {
        b.len() > 0
    } else if b.len() == 0 {
        false
    } else if a[0] != b[0] {
        part_lt(a[0], b[0])
    } else {
        parts_lt(a.drop_first(), b.drop_first())
    }
}

/// Path order, component by component, as `Path`'s `Ord` compares.
pub open spec fn path_lt(a: Seq<char>, b: Seq<char>) -> bool {
    parts_lt(components(a), components(b))
}

/// Path equality, component by component, as `Path`'s `PartialEq` compares.
pub open spec fn same_path(a: Seq<char>, b: Seq<char>) -> bool {
    components(a) == components(b)
}

proof fn lemma_part_lt_irreflexive(a: Seq<char>)
    ensures
        !part_lt(a, a),
{
    lemma_lt_irreflexive(a);
}

proof fn lemma_part_lt_transitive(a: Seq<char>, b: Seq<char>, c: Seq<char>)
    requires
        part_lt(a, b),
        part_lt(b, c),
    ensures
        part_lt(a, c),
{
    if part_rank(a) == part_rank(b) && part_rank(b) == part_rank(c) {
        lemma_lt_transitive(a, b, c);
    }
}

proof fn lemma_part_lt_total(a: Seq<char>, b: Seq<char>)
    requires
        a != b,
    ensures
        part_lt(a, b) || part_lt(b, a),
{
    lemma_lt_total(a, b);
}

/// No component list comes before itself.
pub proof fn lemma_parts_lt_irreflexive(a: Seq<Seq<char>>)
    ensures
        !parts_lt(a, a),
    decreases a.len(),
{
    if a.len() > 0 {
        lemma_parts_lt_irreflexive(a.drop_first());
    }
}

/// The component order is transitive.
pub proof fn lemma_parts_lt_transitive(a: Seq<Seq<char>>, b: Seq<Seq<char>>, c: Seq<Seq<char>>)
    requires
        parts_lt(a, b),
        parts_lt(b, c),
    ensures
        parts_lt(a, c),
    decreases a.len(),
{
    if a.len() > 0 && b.len() > 0 && c.len() > 0 {
        if a[0] == b[0] && b[0] == c[0] {
            lemma_parts_lt_transitive(a.drop_first(), b.drop_first(), c.drop_first());
        } else if a[0] != b[0] && b[0] != c[0] {
            lemma_part_lt_transitive(a[0], b[0], c[0]);
            if a[0] == c[0] {
                lemma_part_lt_transitive(a[0], b[0], a[0]);
                lemma_part_lt_irreflexive(a[0]);
            }
        }
    }
}

/// Two different component lists are ordered one way or the other.
pub proof fn lemma_parts_lt_total(a: Seq<Seq<char>>, b: Seq<Seq<char>>)
    requires
        a != b,
    ensures
        parts_lt(a, b) || parts_lt(b, a),
    decreases a.len(),
{
    if a.len() == 0 {
        assert(b.len() > 0) by {
            if b.len() == 0 {
                assert(a =~= b);
            }
        }
    } else if b.len() == 0 {
    } else if a[0] != b[0] {
        lemma_part_lt_total(a[0], b[0]);
    } else {
        if a.drop_first() == b.drop_first() {
            assert(a =~= seq![a[0]] + a.drop_first());
            assert(b =~= seq![b[0]] + b.drop_first());
        }
        lemma_parts_lt_total(a.drop_first(), b.drop_first());
    }
}

/// The position after the leading separators and `.` pieces of `s[i..]`.
fn skip_separators(s: &[char], i: usize) -> (j: usize)
    requires
        i <= s@.len(),
    ensures
        i <= j <= s@.len(),
        s@.skip(j as int) == trim_front(s@.skip(i as int)),
{
    let n = s.len();
    let mut j = i;
    while j < n && (s[j] == '/' || (s[j] == '.' && (j + 1 == n || s[j + 1] == '/')))
        invariant
            n == s@.len(),
            i <= j <= n,
            trim_front(s@.skip(j as int)) == trim_front(s@.skip(i as int)),
        decreases n - j,
    {
        assert(s@.skip(j as int).drop_first() =~= s@.skip(j + 1));
        j = j + 1;
    }
    proof {
        let t = s@.skip(j as int);
        if j < n {
            assert(t[0] == s@[j as int]);
            if t.len() > 1 {
                assert(t[1] == s@[j + 1]);
            }
        }
    }
    j
}

/// The end of the piece that starts at `j`.
fn piece_end(s: &[char], j: usize) -> (k: usize)
    requires
        j <= s@.len(),
    ensures
        j <= k <= s@.len(),
        k - j == piece_len(s@.skip(j as int)),
{
    let n = s.len();
    let mut k = j;
    while k < n && s[k] != '/'
        invariant
            n == s@.len(),
            j <= k <= n,
            piece_len(s@.skip(j as int)) == (k - j) + piece_len(s@.skip(k as int)),
        decreases n - k,
    {
        assert(s@.skip(k as int).drop_first() =~= s@.skip(k + 1));
        k = k + 1;
    }
    k
}

/// The text of each component of `path`.
pub fn path_components(path: &[char]) -> (r: Vec<Vec<char>>)
    ensures
        r@.map_values(|v: Vec<char>| v@) == components(path@),
{
    let n = path.len();
    let mut out: Vec<Vec<char>> = Vec::new();
    let mut i: usize = 0;
    if n > 0 && path[0] == '/' {
        out.push(vec!['/']);
        i = 1;
    } else if n > 0 && path[0] == '.' && (n == 1 || path[1] == '/') {
        out.push(vec!['.']);
        i = 1;
    }
    proof {
        assert(path@.skip(1) =~= path@.drop_first());
        assert(path@.skip(0) =~= path@);
        if i == 1 {
            assert(out@.map_values(|v: Vec<char>| v@) =~= seq![out@[0]@]);
            if starts_root(path@) {
                assert(out@[0]@ =~= seq!['/']);
            } else {
                assert(out@[0]@ =~= seq!['.']);
            }
        } else {
            assert(out@.map_values(|v: Vec<char>| v@) =~= Seq::<Seq<char>>::empty());
        }
        assert(out@.map_values(|v: Vec<char>| v@) + body_parts(path@.skip(i as int))
            =~= components(path@));
    }
    while i < n
        invariant
            n == path@.len(),
            i <= n,
            out@.map_values(|v: Vec<char>| v@) + body_parts(path@.skip(i as int)) == components(
                path@,
            ),
        decreases n - i,
    {
        let ghost before = out@.map_values(|v: Vec<char>| v@);
        let ghost t = path@.skip(i as int);
        let j = skip_separators(path, i);
        proof {
            lemma_trim_front(t);
        }
        if j == n {
            assert(path@.skip(j as int).len() == 0);
            i = n;
            assert(body_parts(t) =~= Seq::<Seq<char>>::empty());
            assert(body_parts(path@.skip(i as int)) =~= Seq::<Seq<char>>::empty());
        } else {
            let k = piece_end(path, j);
            let ghost u = path@.skip(j as int);
            proof {
                lemma_piece_len(u);
                assert(u[0] == path@[j as int]);
            }
            let piece = copy_range(path, j, k);
            assert(piece@ =~= u.take((k - j) as int));
            assert(u.skip((k - j) as int) =~= path@.skip(k as int));
            out.push(piece);
            assert(out@.map_values(|v: Vec<char>| v@) =~= before.push(piece@));
            assert(body_parts(t) == seq![piece@] + body_parts(path@.skip(k as int)));
            assert(before.push(piece@) + body_parts(path@.skip(k as int)) =~= before + (seq![
                piece@,
            ] + body_parts(path@.skip(k as int))));
            i = k;
        }
    }
    proof {
        assert(body_parts(path@.skip(n as int)) =~= Seq::<Seq<char>>::empty()) by {
            assert(path@.skip(n as int).len() == 0);
        }
        assert(out@.map_values(|v: Vec<char>| v@) =~= components(path@));
    }
    out
}

/// The kind of component `p` is, as [`part_rank`] orders them.
fn rank_of(p: &[char]) -> (r: u8)
    ensures
        r == part_rank(p@),
{
    if p.len() == 1 && p[0] == '/' {
        assert(p@ =~= seq!['/']);
        0
    } else if p.len() == 1 && p[0] == '.' {
        assert(p@ =~= seq!['.']);
        assert(p@ != seq!['/']);
        1
    } else if p.len() == 2 && p[0] == '.' && p[1] == '.' {
        assert(p@ =~= seq!['.', '.']);
        assert(p@ != seq!['/']);
        assert(p@ != seq!['.']);
        2
    } else {
        assert(p@ != seq!['/']) by {
            if p@ == seq!['/'] {
                assert(p@.len() == 1 && p@[0] == '/');
            }
        }
        assert(p@ != seq!['.']) by {
            if p@ == seq!['.'] {
                assert(p@.len() == 1 && p@[0] == '.');
            }
        }
        assert(p@ != seq!['.', '.']) by {
            if p@ == seq!['.', '.'] {
                assert(p@.len() == 2 && p@[0] == '.' && p@[1] == '.');
            }
        }
        3
    }
}

/// Whether component `a` comes strictly before component `b`.
fn part_before(a: &[char], b: &[char]) -> (r: bool)
    ensures
        r == part_lt(a@, b@),
{
    let ra = rank_of(a);
    let rb = rank_of(b);
    ra < rb || (ra == rb && chars_lt(a, b))
}

/// The texts of a list of components.
pub open spec fn part_views(v: Seq<Vec<char>>) -> Seq<Seq<char>> {
    v.map_values(|x: Vec<char>| x@)
}

/// Whether the component list `a` comes strictly before `b`.
pub fn parts_before(a: &[Vec<char>], b: &[Vec<char>]) -> (r: bool)
    ensures
        r == parts_lt(part_views(a@), part_views(b@)),
{
    let ghost va = part_views(a@);
    let ghost vb = part_views(b@);
    let n = a.len();
    let m = b.len();
    let mut i: usize = 0;
    assert(va.skip(0) =~= va);
    assert(vb.skip(0) =~= vb);
    while i < n && i < m && chars_eq(a[i].as_slice(), b[i].as_slice())
        invariant
            n == a@.len(),
            m == b@.len(),
            va == part_views(a@),
            vb == part_views(b@),
            i <= n,
            i <= m,
            parts_lt(va, vb) == parts_lt(va.skip(i as int), vb.skip(i as int)),
        decreases n - i,
    {
        assert(va.skip(i as int).drop_first() =~= va.skip(i + 1));
        assert(vb.skip(i as int).drop_first() =~= vb.skip(i + 1));
        i = i + 1;
    }
    if i == n {
        i < m
    } else if i == m {
        false
    } else {
        assert(va.skip(i as int)[0] == a@[i as int]@);
        assert(vb.skip(i as int)[0] == b@[i as int]@);
        part_before(a[i].as_slice(), b[i].as_slice())
    }
}

/// Whether two component lists are the same.
pub fn parts_equal(a: &[Vec<char>], b: &[Vec<char>]) -> (r: bool)
    ensures
        r == (part_views(a@) == part_views(b@)),
{
    if a.len() != b.len() {
        assert(part_views(a@).len() != part_views(b@).len());
        return false;
    }
    let n = a.len();
    let mut i: usize = 0;
    while i < n
        invariant
            n == a@.len(),
            n == b@.len(),
            i <= n,
            forall|j: int| 0 <= j < i ==> (#[trigger] part_views(a@)[j]) == part_views(b@)[j],
        decreases n - i,
    {
        if !chars_eq(a[i].as_slice(), b[i].as_slice()) {
            assert(part_views(a@)[i as int] != part_views(b@)[i as int]);
            return false;
        }
        i = i + 1;
    }
    assert(part_views(a@) =~= part_views(b@));
    true
}

// ---------------------------------------------------------------------------
// Relative paths
// ---------------------------------------------------------------------------

/// What is left of `t` once the components `parts` are read off its front,
/// if they are there.
pub open spec fn strip_parts(t: Seq<char>, parts: Seq<Seq<char>>) -> Option<Seq<char>>
    decreases parts.len(),
{
    if parts.len() == 0 {
        Some(t)
    } else {
        let u = trim_front(t);
        if u.len() == 0 {
            None
        } else {
            let n = piece_len(u);
            if u.take(n as int) == parts[0] {
                strip_parts(u.skip(n as int), parts.drop_first())
            } else {
                None
            }
        }
    }
}

/// `path` relative to a non-empty `base`, as `Path::strip_prefix` gives it:
/// `None` unless the components of `base` begin those of `path`; otherwise
/// the rest of the text, without separators or `.` pieces at either end.
pub open spec fn strip_prefix(path: Seq<char>, base: Seq<char>) -> Option<Seq<char>> {
    let rest = if starts_root(base) {
        if starts_root(path) {
            strip_parts(path.drop_first(), body_parts(base.drop_first()))
        } else {
            None
        }
    } else if starts_cur(base) {
        if starts_cur(path) {
            strip_parts(path.drop_first(), body_parts(base.drop_first()))
        } else {
            None
        }
    } else if starts_root(path) || starts_cur(path) {
        None
    } else {
        strip_parts(path, body_parts(base))
    };
    match rest {
        Some(r) => Some(trim_back(trim_front(r))),
        None => None,
    }
}

/// `path` without a leading `.` component.
pub open spec fn clean_path(path: Seq<char>) -> Seq<char> {
    match strip_prefix(path, seq!['.']) {
        Some(r) => r,
        None => path,
    }
}

/// The baseline key of `path` found under `base`: the path relative to
/// `base` when there is a non-empty one, else the path itself.
pub open spec fn key_of(path: Seq<char>, base: Seq<char>) -> Seq<char> {
    if base.len() == 0 {
        path
    } else {
        match strip_prefix(path, base) {
            Some(r) => if r.len() > 0 {
                r
            } else {
                path
            },
            None => path,
        }
    }
}

/// The end of `s[lo..hi]` once trailing separators and `.` pieces are
/// dropped.
fn trim_back_end(s: &[char], lo: usize, hi: usize) -> (e: usize)
    requires
        lo <= hi <= s@.len(),
    ensures
        lo <= e <= hi,
        s@.subrange(lo as int, e as int) == trim_back(s@.subrange(lo as int, hi as int)),
{
    let mut e = hi;
    while e > lo && (s[e - 1] == '/' || (s[e - 1] == '.' && (e - 1 == lo || s[e - 2] == '/')))
        invariant
            lo <= e <= hi <= s@.len(),
            trim_back(s@.subrange(lo as int, e as int)) == trim_back(
                s@.subrange(lo as int, hi as int),
            ),
        decreases e - lo,
    {
        let ghost t = s@.subrange(lo as int, e as int);
        assert(t.last() == s@[e - 1]);
        if e - lo >= 2 {
            assert(t[t.len() - 2] == s@[e - 2]);
        }
        assert(t.drop_last() =~= s@.subrange(lo as int, e - 1));
        e = e - 1;
    }
    proof {
        let t = s@.subrange(lo as int, e as int);
        if e > lo {
            assert(t.last() == s@[e - 1]);
            if e - lo >= 2 {
                assert(t[t.len() - 2] == s@[e - 2]);
            }
        }
    }
    e
}

/// Where the rest of `s[i..]` starts once `parts` are read off its front.
fn strip_from(s: &[char], i: usize, parts: &[Vec<char>], first: usize) -> (r: Option<usize>)
    requires
        i <= s@.len(),
        first <= parts@.len(),
    ensures
        match r {
            Some(j) => i <= j <= s@.len() && strip_parts(
                s@.skip(i as int),
                part_views(parts@).skip(first as int),
            ) == Some(s@.skip(j as int)),
            None => strip_parts(s@.skip(i as int), part_views(parts@).skip(first as int)) is None,
        },
{
    let ghost pv = part_views(parts@);
    let n = s.len();
    let mut j = i;
    let mut p = first;
    while p < parts.len()
        invariant
            n == s@.len(),
            i <= j <= n,
            first <= p <= parts@.len(),
            pv == part_views(parts@),
            strip_parts(s@.skip(i as int), pv.skip(first as int)) == strip_parts(
                s@.skip(j as int),
                pv.skip(p as int),
            ),
        decreases parts@.len() - p,
    {
        let ghost t = s@.skip(j as int);
        let k = skip_separators(s, j);
        proof {
            lemma_trim_front(t);
        }
        assert(pv.skip(p as int).len() > 0);
        assert(pv.skip(p as int)[0] == parts@[p as int]@);
        assert(pv.skip(p as int).drop_first() =~= pv.skip(p + 1));
        if k == n {
            assert(s@.skip(k as int).len() == 0);
            return None;
        }
        let e = piece_end(s, k);
        let ghost u = s@.skip(k as int);
        assert(u.take((e - k) as int) =~= s@.subrange(k as int, e as int));
        assert(u.skip((e - k) as int) =~= s@.skip(e as int));
        let piece = copy_range(s, k, e);
        if !chars_eq(piece.as_slice(), parts[p].as_slice()) {
            return None;
        }
        j = e;
        p = p + 1;
    }
    assert(pv.skip(p as int).len() == 0);
    Some(j)
}

/// The text `s[lo..hi]` with separators and `.` pieces trimmed at both ends.
fn trimmed(s: &[char], lo: usize) -> (r: Vec<char>)
    requires
        lo <= s@.len(),
    ensures
        r@ == trim_back(trim_front(s@.skip(lo as int))),
{
    let start = skip_separators(s, lo);
    let end = trim_back_end(s, start, s.len());
    assert(s@.subrange(start as int, s@.len() as int) =~= s@.skip(start as int));
    copy_range(s, start, end)
}

/// `path` relative to the non-empty `base`, if `base` is a prefix of it,
/// component by component.
pub fn relative_to(path: &[char], base: &[char]) -> (r: Option<Vec<char>>)
    requires
        base@.len() > 0,
    ensures
        match r {
            Some(t) => strip_prefix(path@, base@) == Some(t@),
            None => strip_prefix(path@, base@) is None,
        },
{
    let base_parts = path_components(base);
    let ghost bv = part_views(base_parts@);
    let n = path.len();
    let root = n > 0 && path[0] == '/';
    let cur = n > 0 && path[0] == '.' && (n == 1 || path[1] == '/');
    let base_root = base[0] == '/';
    let base_cur = base[0] == '.' && (base.len() == 1 || base[1] == '/');
    assert(base@.skip(1) =~= base@.drop_first());
    assert(path@.skip(1) =~= path@.drop_first());
    assert(path@.skip(0) =~= path@);
    let rest = if base_root {
        assert(bv.skip(1) =~= body_parts(base@.drop_first()));
        if root {
            strip_from(path, 1, base_parts.as_slice(), 1)
        } else {
            None
        }
    } else if base_cur {
        assert(bv.skip(1) =~= body_parts(base@.drop_first()));
        if cur {
            strip_from(path, 1, base_parts.as_slice(), 1)
        } else {
            None
        }
    } else if root || cur {
        None
    } else {
        assert(bv.skip(0) =~= body_parts(base@));
        strip_from(path, 0, base_parts.as_slice(), 0)
    };
    match rest {
        Some(j) => Some(trimmed(path, j)),
        None => None,
    }
}

/// `path` without a leading `./`, as `Path::strip_prefix(".")` leaves it.
pub fn clean(path: &str) -> (r: String)
    ensures
        r@ == clean_path(path@),
{
    let chars = chars_of(path);
    let dot: Vec<char> = vec!['.'];
    assert(dot@ =~= seq!['.']);
    match relative_to(chars.as_slice(), dot.as_slice()) {
        Some(rest) => crate::text::string_from_chars(rest.as_slice()),
        None => path.to_owned(),
    }
}

/// The key a file found at `path` is recorded under, given the directory
/// `base` its config lives in: the path relative to `base` when it has a
/// non-empty one, else the path as it is.
pub fn key_for(path: &str, base: &str) -> (r: String)
    ensures
        r@ == key_of(path@, base@),
{
    let b = chars_of(base);
    if b.len() == 0 {
        return path.to_owned();
    }
    let p = chars_of(path);
    match relative_to(p.as_slice(), b.as_slice()) {
        Some(rest) => {
            if rest.len() > 0 {
                crate::text::string_from_chars(rest.as_slice())
            } else {
                path.to_owned()
            }
        },
        None => path.to_owned(),
    }
}

// ---------------------------------------------------------------------------
// Directories
// ---------------------------------------------------------------------------

/// `dir` with `"."` read as the empty path, so that paths built on it carry
/// no `./` prefix.
pub open spec fn normalized_dir_of(dir: Seq<char>) -> Seq<char> {
    if dir.len() == 0 || components(dir) == seq![seq!['.']] {
        Seq::empty()
    } else {
        dir
    }
}

/// Treats `""` and `"."` alike, so resolved paths stay free of a `./` prefix.
pub fn normalized_dir(dir: &str) -> (r: String)
    ensures
        r@ == normalized_dir_of(dir@),
{
    let chars = chars_of(dir);
    if chars.len() == 0 {
        return String::new();
    }
    let parts = path_components(chars.as_slice());
    let mut here: Vec<char> = Vec::new();
    here.push('.');
    let mut dot: Vec<Vec<char>> = Vec::new();
    dot.push(here);
    assert(dot@[0]@ =~= seq!['.']);
    assert(part_views(dot@) =~= seq![seq!['.']]);
    if parts_equal(parts.as_slice(), dot.as_slice()) {
        String::new()
    } else {
        dir.to_owned()
    }
}

/// How a search directory is shown: the empty path reads as `"."`.
pub open spec fn display_dir_of(base: Seq<char>) -> Seq<char> {
    if base.len() == 0 {
        seq!['.']
    } else {
        base
    }
}

/// How a search directory is shown in messages.
pub fn display_dir(base: &str) -> (r: String)
    ensures
        r@ == display_dir_of(base@),
{
    if base.is_empty() {
        let r = ".".to_owned();
        proof {
            reveal_strlit(".");
        }
        assert(r@ =~= seq!['.']);
        r
    } else {
        base.to_owned()
    }
}

/// `s` with every backslash turned into a slash.
pub open spec fn forward_slashes(s: Seq<char>) -> Seq<char> {
    s.map_values(|c: char| if c == '\\' { '/' } else { c })
}

/// The glob pattern for a config entry: the entry itself under the empty
/// directory, else the directory, with forward slashes, a `/` and the entry.
pub open spec fn glob_pattern_of(base: Seq<char>, entry: Seq<char>) -> Seq<char> {
    if base.len() == 0 {
        entry
    } else {
        forward_slashes(base) + seq!['/'] + entry
    }
}

/// The pattern a glob `entry` is expanded with, relative to `base`.
pub fn glob_pattern(base: &str, entry: &str) -> (r: String)
    ensures
        r@ == glob_pattern_of(base@, entry@),
{
    let b = chars_of(base);
    if b.len() == 0 {
        return entry.to_owned();
    }
    let mut out: Vec<char> = Vec::new();
    let n = b.len();
    let mut i: usize = 0;
    while i < n
        invariant
            n == b@.len(),
            i <= n,
            out@ == forward_slashes(b@.take(i as int)),
        decreases n - i,
    {
        let c = b[i];
        if c == '\\' {
            out.push('/');
        } else {
            out.push(c);
        }
        assert(out@ =~= forward_slashes(b@.take(i + 1)));
        i = i + 1;
    }
    assert(b@.take(n as int) =~= b@);
    out.push('/');
    crate::text::push_str(&mut out, entry);
    assert(out@ =~= glob_pattern_of(base@, entry@));
    crate::text::string_from_chars(out.as_slice())
}

/// `file` joined onto `dir`, as `Path::join` does on Unix: an absolute
/// `file` replaces `dir`, and a separator is added unless `dir` is empty or
/// already ends with one.
pub open spec fn join_of(dir: Seq<char>, file: Seq<char>) -> Seq<char> {
    if starts_root(file) || dir.len() == 0 {
        file
    } else if dir.last() == '/' {
        dir + file
    } else {
        dir + seq!['/'] + file
    }
}

/// `file` joined onto `dir`.
pub fn join(dir: &str, file: &str) -> (r: String)
    ensures
        r@ == join_of(dir@, file@),
{
    let d = chars_of(dir);
    let f = chars_of(file);
    if (f.len() > 0 && f[0] == '/') || d.len() == 0 {
        return file.to_owned();
    }
    let mut out = d;
    if out[out.len() - 1] != '/' {
        out.push('/');
    }
    crate::text::push_all(&mut out, f.as_slice());
    assert(out@ =~= join_of(dir@, file@));
    crate::text::string_from_chars(out.as_slice())
}

/// What `std::path::Path::parent` gives for `path`, as text.
pub uninterp spec fn path_parent(path: Seq<char>) -> Option<Seq<char>>;

/// Calls `std::path::Path::parent` on `path`. The contract claims that the
/// parent depends on the path text alone.
#[verifier::external_body]
fn parent_of(path: &str) -> (r: Option<String>)
    ensures
        match r {
            Some(p) => path_parent(path@) == Some(p@),
            None => path_parent(path@) is None,
        },
{
    match std::path::Path::new(path).parent() {
        Some(parent) => Some(parent.to_string_lossy().into_owned()),
        None => None,
    }
}

/// The directory a config's entries are resolved against: the config
/// file's parent, or `"."` when it has none or an empty one.
pub open spec fn config_dir_of(path: Seq<char>) -> Seq<char> {
    match path_parent(path) {
        Some(p) => if p.len() > 0 {
            p
        } else {
            seq!['.']
        },
        None => seq!['.'],
    }
}

/// The directory the config at `path` resolves its entries against.
pub fn config_dir(path: &str) -> (r: String)
    ensures
        r@ == config_dir_of(path@),
{
    proof {
        reveal_strlit(".");
    }
    match parent_of(path) {
        Some(p) => {
            if !p.as_str().is_empty() {
                p
            } else {
                let r = ".".to_owned();
                assert(r@ =~= seq!['.']);
                r
            }
        },
        None => {
            let r = ".".to_owned();
            assert(r@ =~= seq!['.']);
            r
        },
    }
}

} // verus!
