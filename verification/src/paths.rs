//! Unix path text: file names, extensions, parents, joins and component order.
//! Paths are handled as character sequences separated by `/`.
use vstd::prelude::*;

verus! {

/// Index of the last `c` in `s`, or -1.
pub open spec fn rfind(s: Seq<char>, c: char) -> int
    decreases s.len(),
{
    if s.len() == 0 {
        -1
    } else if s.last() == c {
        s.len() - 1
    } else {
        rfind(s.drop_last(), c)
    }
}

pub proof fn lemma_rfind(s: Seq<char>, c: char)
    ensures
        -1 <= rfind(s, c) < s.len(),
        rfind(s, c) >= 0 ==> s[rfind(s, c)] == c,
        forall|k: int| rfind(s, c) < k < s.len() ==> s[k] != c,
    decreases s.len(),
{
    if s.len() > 0 && s.last() != c {
        lemma_rfind(s.drop_last(), c);
        assert forall|k: int| rfind(s, c) < k < s.len() implies s[k] != c by {
            if k < s.len() - 1 {
                assert(s[k] == s.drop_last()[k]);
            }
        }
    }
}

/// `s` without its trailing `/` characters.
pub open spec fn strip_seps(s: Seq<char>) -> Seq<char>
    decreases s.len(),
{
    if s.len() > 0 && s.last() == '/' { strip_seps(s.drop_last()) } else { s }
}

pub proof fn lemma_strip_seps(s: Seq<char>)
    ensures
        strip_seps(s).len() <= s.len(),
        strip_seps(s) == s.take(strip_seps(s).len() as int),
        strip_seps(s).len() > 0 ==> strip_seps(s).last() != '/',
        forall|k: int| strip_seps(s).len() <= k < s.len() ==> s[k] == '/',
    decreases s.len(),
{
    if s.len() > 0 && s.last() == '/' {
        lemma_strip_seps(s.drop_last());
        assert(s.drop_last().take(strip_seps(s).len() as int) =~= s.take(strip_seps(s).len() as int));
        assert forall|k: int| strip_seps(s).len() <= k < s.len() implies s[k] == '/' by {
            if k < s.len() - 1 {
                assert(s[k] == s.drop_last()[k]);
            }
        }
    } else {
        assert(s.take(s.len() as int) =~= s);
    }
}

pub open spec fn dot() -> Seq<char> {
    seq!['.']
}

pub open spec fn dot_dot() -> Seq<char> {
    seq!['.', '.']
}

/// The last component of a path: trailing `/` and `.` components are skipped,
/// and there is none for an empty path, the root, or a final `..`.
pub open spec fn file_name_spec(s: Seq<char>) -> Option<Seq<char>>
    decreases s.len(),
{
    let t = strip_seps(s);
    if t.len() == 0 {
        None
    } else {
        let i = rfind(t, '/');
        proof {
            lemma_strip_seps(s);
            lemma_rfind(t, '/');
        }
        let seg = t.subrange(i + 1, t.len() as int);
        if seg == dot() {
            file_name_spec(t.subrange(0, i + 1))
        } else if seg == dot_dot() {
            None
        } else {
            Some(seg)
        }
    }
}

fn strip_end(p: &[char], end: usize) -> (r: usize)
    requires
        end <= p@.len(),
    ensures
        r <= end,
        p@.take(r as int) == strip_seps(p@.take(end as int)),
{
    let mut e = end;
    while e > 0 && p[e - 1] == '/'
        invariant
            e <= end <= p@.len(),
            strip_seps(p@.take(e as int)) == strip_seps(p@.take(end as int)),
        decreases e,
    {
        proof {
            assert(p@.take(e as int).drop_last() =~= p@.take(e - 1));
        }
        e -= 1;
    }
    proof {
        assert(strip_seps(p@.take(e as int)) == p@.take(e as int));
    }
    e
}

/// Index just after the last `c` before `end`, or 0.
fn after_last(p: &[char], end: usize, c: char) -> (r: usize)
    requires
        end <= p@.len(),
    ensures
        r == rfind(p@.take(end as int), c) + 1,
{
    let mut i = end;
    while i > 0 && p[i - 1] != c
        invariant
            i <= end <= p@.len(),
            rfind(p@.take(i as int), c) == rfind(p@.take(end as int), c),
        decreases i,
    {
        proof {
            assert(p@.take(i as int).drop_last() =~= p@.take(i - 1));
        }
        i -= 1;
    }
    proof {
        if i > 0 {
            assert(p@.take(i as int).last() == c);
        }
    }
    i
}

pub(crate) fn slice_vec(p: &[char], a: usize, b: usize) -> (r: Vec<char>)
    requires
        a <= b <= p@.len(),
    ensures
        r@ == p@.subrange(a as int, b as int),
{
    let mut r: Vec<char> = Vec::new();
    let mut i = a;
    while i < b
        invariant
            a <= i <= b <= p@.len(),
            r@ == p@.subrange(a as int, i as int),
        decreases b - i,
    {
        r.push(p[i]);
        proof {
            assert(p@.subrange(a as int, i + 1) =~= p@.subrange(a as int, i as int).push(p@[i as int]));
        }
        i += 1;
    }
    r
}

fn is_dot(p: &[char], a: usize, b: usize) -> (r: bool)
    requires
        a <= b <= p@.len(),
    ensures
        r == (p@.subrange(a as int, b as int) == dot()),
{
    let r = b - a == 1 && p[a] == '.';
    proof {
        let t = p@.subrange(a as int, b as int);
        if b - a == 1 {
            assert(t =~= seq![p@[a as int]]);
        }
        if r {
            assert(t =~= dot());
        }
        if t == dot() {
            assert(t.len() == 1);
            assert(t[0] == p@[a as int]);
        }
    }
    r
}

fn is_dot_dot(p: &[char], a: usize, b: usize) -> (r: bool)
    requires
        a <= b <= p@.len(),
    ensures
        r == (p@.subrange(a as int, b as int) == dot_dot()),
{
    let r = b - a == 2 && p[a] == '.' && p[a + 1] == '.';
    proof {
        let t = p@.subrange(a as int, b as int);
        if b - a == 2 {
            assert(t =~= seq![p@[a as int], p@[a + 1]]);
        }
        if r {
            assert(t =~= dot_dot());
        }
        if t == dot_dot() {
            assert(t.len() == 2);
            assert(t[0] == p@[a as int]);
            assert(t[1] == p@[a + 1]);
        }
    }
    r
}

fn file_name_upto(p: &[char], end: usize) -> (r: Option<Vec<char>>)
    requires
        end <= p@.len(),
    ensures
        r is Some <==> file_name_spec(p@.take(end as int)) is Some,
        r matches Some(v) ==> file_name_spec(p@.take(end as int)) == Some(v@),
    decreases end,
{
    let ghost s = p@.take(end as int);
    let e = strip_end(p, end);
    proof {
        lemma_strip_seps(s);
    }
    if e == 0 {
        return None;
    }
    let i = after_last(p, e, '/');
    proof {
        let t = p@.take(e as int);
        lemma_rfind(t, '/');
        assert(t.subrange(i as int, t.len() as int) =~= p@.subrange(i as int, e as int));
        assert(t.subrange(0, i as int) =~= p@.take(i as int));
    }
    if is_dot(p, i, e) {
        return file_name_upto(p, i);
    }
    if is_dot_dot(p, i, e) {
        return None;
    }
    Some(slice_vec(p, i, e))
}

/// The last component of a path.
pub fn file_name(p: &[char]) -> (r: Option<Vec<char>>)
    ensures
        r is Some <==> file_name_spec(p@) is Some,
        r matches Some(v) ==> file_name_spec(p@) == Some(v@),
{
    assert(p@.take(p@.len() as int) =~= p@);
    file_name_upto(p, p.len())
}

/// Stem and extension of a file name: split at the last `.`, unless that dot
/// starts the name.
pub open spec fn split_dot(f: Seq<char>) -> (Seq<char>, Option<Seq<char>>) {
    let i = rfind(f, '.');
    if i <= 0 { (f, None) } else { (f.subrange(0, i), Some(f.subrange(i + 1, f.len() as int))) }
}

/// The extension of a path, as `Path::extension` gives it.
pub open spec fn extension_spec(s: Seq<char>) -> Option<Seq<char>> {
    match file_name_spec(s) {
        None => None,
        Some(f) => split_dot(f).1,
    }
}

/// The file stem of a path, as `Path::file_stem` gives it.
pub open spec fn file_stem_spec(s: Seq<char>) -> Option<Seq<char>> {
    match file_name_spec(s) {
        None => None,
        Some(f) => Some(split_dot(f).0),
    }
}

fn split_dot_exec(f: &[char]) -> (r: (Vec<char>, Option<Vec<char>>))
    ensures
        r.0@ == split_dot(f@).0,
        r.1 is Some <==> split_dot(f@).1 is Some,
        r.1 matches Some(v) ==> split_dot(f@).1 == Some(v@),
{
    let i = after_last(f, f.len(), '.');
    proof {
        assert(f@.take(f@.len() as int) =~= f@);
        lemma_rfind(f@, '.');
    }
    if i <= 1 {
        (slice_vec(f, 0, f.len()), None)
    } else {
        proof {
            assert(f@.subrange(0, f@.len() as int) =~= f@);
        }
        (slice_vec(f, 0, i - 1), Some(slice_vec(f, i, f.len())))
    }
}

/// The extension of a path.
pub fn extension(p: &[char]) -> (r: Option<Vec<char>>)
    ensures
        r is Some <==> extension_spec(p@) is Some,
        r matches Some(v) ==> extension_spec(p@) == Some(v@),
{
    match file_name(p) {
        None => None,
        Some(f) => split_dot_exec(f.as_slice()).1,
    }
}

/// The file stem of a path.
pub fn file_stem(p: &[char]) -> (r: Option<Vec<char>>)
    ensures
        r is Some <==> file_stem_spec(p@) is Some,
        r matches Some(v) ==> file_stem_spec(p@) == Some(v@),
{
    match file_name(p) {
        None => None,
        Some(f) => {
            proof {
                assert(f@.subrange(0, f@.len() as int) =~= f@);
            }
            Some(split_dot_exec(f.as_slice()).0)
        },
    }
}

/// The path without its last component: trailing `/` are ignored, the root and
/// the empty path have no parent, and a relative single component has the
/// empty parent.
pub open spec fn parent_spec(s: Seq<char>) -> Option<Seq<char>> {
    let t = strip_seps(s);
    if t.len() == 0 {
        None
    } else {
        let i = rfind(t, '/');
        if i < 0 {
            Some(Seq::empty())
        } else {
            let p = strip_seps(t.take(i + 1));
            if p.len() == 0 { Some(seq!['/']) } else { Some(p) }
        }
    }
}

/// The parent directory of a path.
pub fn parent(p: &[char]) -> (r: Option<Vec<char>>)
    ensures
        r is Some <==> parent_spec(p@) is Some,
        r matches Some(v) ==> parent_spec(p@) == Some(v@),
{
    assert(p@.take(p@.len() as int) =~= p@);
    let e = strip_end(p, p.len());
    if e == 0 {
        return None;
    }
    let i = after_last(p, e, '/');
    proof {
        lemma_strip_seps(p@);
        lemma_rfind(p@.take(e as int), '/');
    }
    if i == 0 {
        return Some(Vec::new());
    }
    proof {
        assert(p@.take(e as int).take(i as int) =~= p@.take(i as int));
    }
    let k = strip_end(p, i);
    if k == 0 {
        let mut root: Vec<char> = Vec::new();
        root.push('/');
        proof {
            assert(root@ =~= seq!['/']);
        }
        return Some(root);
    }
    Some(slice_vec(p, 0, k))
}

/// `base` joined with the relative path `seg`, with one `/` between them.
pub open spec fn join_spec(base: Seq<char>, seg: Seq<char>) -> Seq<char> {
    if base.len() == 0 || base.last() == '/' { base + seg } else { base + seq!['/'] + seg }
}

/// Join a relative path onto a base, as `Path::join` does.
pub fn join(base: &[char], seg: &[char]) -> (r: Vec<char>)
    ensures
        r@ == join_spec(base@, seg@),
{
    let mut r: Vec<char> = slice_vec(base, 0, base.len());
    proof {
        assert(base@.subrange(0, base@.len() as int) =~= base@);
    }
    if base.len() > 0 && base[base.len() - 1] != '/' {
        r.push('/');
    }
    let ghost mid = r@;
    let mut i: usize = 0;
    while i < seg.len()
        invariant
            i <= seg@.len(),
            r@ == mid + seg@.take(i as int),
        decreases seg@.len() - i,
    {
        r.push(seg[i]);
        proof {
            assert(seg@.take(i + 1) =~= seg@.take(i as int).push(seg@[i as int]));
            assert(mid + seg@.take(i + 1) =~= (mid + seg@.take(i as int)).push(seg@[i as int]));
        }
        i += 1;
    }
    proof {
        assert(seg@.take(i as int) =~= seg@);
        if base@.len() > 0 && base@.last() != '/' {
            assert(mid =~= base@ + seq!['/']);
        } else {
            assert(mid =~= base@);
        }
    }
    r
}

/// The tag of the root component. Components are tagged so that they order as
/// `std::path::Component` does: the root, then `.`, then `..`, then names.
pub open spec fn root_comp() -> Seq<char> {
    seq!['\u{1}']
}

/// The tag of a leading `.` component.
pub open spec fn cur_comp() -> Seq<char> {
    seq!['\u{2}']
}

/// The tag of a `..` component.
pub open spec fn parent_comp() -> Seq<char> {
    seq!['\u{3}']
}

/// A named component, tagged.
pub open spec fn named_comp(name: Seq<char>) -> Seq<char> {
    seq!['\u{4}'] + name
}

/// The pieces of `s` between `/` separators, empty ones included.
pub open spec fn split_slash(s: Seq<char>) -> Seq<Seq<char>>
    decreases s.len(),
{
    if s.len() == 0 {
        seq![Seq::empty()]
    } else {
        let w = split_slash(s.drop_last());
        if s.last() == '/' {
            w.push(Seq::empty())
        } else {
            w.update(w.len() - 1, w.last().push(s.last()))
        }
    }
}

/// One more piece: skipped when empty or `.`, tagged otherwise.
pub open spec fn piece_step(prev: Seq<Seq<char>>, g: Seq<char>) -> Seq<Seq<char>> {
    if g.len() == 0 || g == dot() {
        prev
    } else if g == dot_dot() {
        prev.push(parent_comp())
    } else {
        prev.push(named_comp(g))
    }
}

/// The tagged components of the pieces.
pub open spec fn piece_comps(pieces: Seq<Seq<char>>) -> Seq<Seq<char>>
    decreases pieces.len(),
{
    if pieces.len() == 0 {
        Seq::empty()
    } else {
        piece_step(piece_comps(pieces.drop_last()), pieces.last())
    }
}

/// The components of a Unix path, as `Path::components` yields them: the root
/// when it starts with `/`, a `.` only when it is the first piece of a relative
/// path, and then every piece that is neither empty nor `.`.
pub open spec fn components_spec(s: Seq<char>) -> Seq<Seq<char>> {
    let lead: Seq<Seq<char>> = if s.len() > 0 && s[0] == '/' {
        seq![root_comp()]
    } else if split_slash(s)[0] == dot() {
        seq![cur_comp()]
    } else {
        Seq::empty()
    };
    lead + piece_comps(split_slash(s))
}

/// The views of character vectors.
pub open spec fn views(v: Seq<Vec<char>>) -> Seq<Seq<char>> {
    v.map_values(|c: Vec<char>| c@)
}

fn push_piece(out: &mut Vec<Vec<char>>, g: Vec<char>)
    ensures
        views(final(out)@) == piece_step(views(old(out)@), g@),
{
    let n = g.len();
    if n == 0 || (n == 1 && g[0] == '.') {
        proof {
            if n == 1 {
                assert(g@ =~= dot());
            }
        }
        return;
    }
    proof {
        assert(g@ != dot()) by {
            if g@ == dot() {
                assert(g@[0] == '.');
            }
        }
    }
    if n == 2 && g[0] == '.' && g[1] == '.' {
        let mut c: Vec<char> = Vec::new();
        c.push('\u{3}');
        out.push(c);
        proof {
            assert(g@ =~= dot_dot());
            assert(views(out@) =~= views(old(out)@).push(parent_comp()));
        }
        return;
    }
    proof {
        assert(g@ != dot_dot()) by {
            if g@ == dot_dot() {
                assert(g@[0] == '.' && g@[1] == '.');
            }
        }
    }
    let mut c: Vec<char> = Vec::new();
    c.push('\u{4}');
    let mut i: usize = 0;
    while i < n
        invariant
            n == g@.len(),
            i <= n,
            c@ == seq!['\u{4}'] + g@.take(i as int),
        decreases n - i,
    {
        c.push(g[i]);
        proof {
            assert(g@.take(i + 1) =~= g@.take(i as int).push(g@[i as int]));
        }
        i += 1;
    }
    proof {
        assert(g@.take(n as int) =~= g@);
    }
    out.push(c);
    proof {
        assert(views(out@) =~= views(old(out)@).push(named_comp(g@)));
    }
}

/// The components of a path, tagged as `components_spec` says.
pub fn components(p: &[char]) -> (r: Vec<Vec<char>>)
    ensures
        views(r@) == components_spec(p@),
{
    let mut out: Vec<Vec<char>> = Vec::new();
    let mut cur: Vec<char> = Vec::new();
    let ghost mut done: Seq<Seq<char>> = Seq::empty();
    let mut seen_sep = false;
    let mut first_is_dot = false;
    let mut i: usize = 0;
    while i < p.len()
        invariant
            i <= p@.len(),
            split_slash(p@.take(i as int)) == done.push(cur@),
            views(out@) == piece_comps(done),
            seen_sep == (done.len() > 0),
            seen_sep ==> first_is_dot == (done[0] == dot()),
        decreases p@.len() - i,
    {
        let c = p[i];
        proof {
            assert(p@.take(i + 1).drop_last() =~= p@.take(i as int));
        }
        if c == '/' {
            if !seen_sep {
                first_is_dot = cur.len() == 1 && cur[0] == '.';
                proof {
                    if cur@.len() == 1 && cur@[0] == '.' {
                        assert(cur@ =~= dot());
                    }
                }
                seen_sep = true;
            }
            let ghost g = cur@;
            let piece = cur;
            cur = Vec::new();
            push_piece(&mut out, piece);
            proof {
                assert(done.push(g).drop_last() =~= done);
                done = done.push(g);
                assert(split_slash(p@.take(i + 1)) =~= done.push(cur@));
            }
        } else {
            cur.push(c);
            proof {
                assert(split_slash(p@.take(i + 1)) =~= done.push(cur@));
            }
        }
        i += 1;
    }
    proof {
        assert(p@.take(i as int) =~= p@);
    }
    let rooted = p.len() > 0 && p[0] == '/';
    if !seen_sep {
        first_is_dot = cur.len() == 1 && cur[0] == '.';
        proof {
            if cur@.len() == 1 && cur@[0] == '.' {
                assert(cur@ =~= dot());
            }
        }
    }
    let ghost last = cur@;
    push_piece(&mut out, cur);
    proof {
        let all = done.push(last);
        assert(all.drop_last() =~= done);
        assert(split_slash(p@)[0] == all[0]);
    }
    if rooted {
        let mut t: Vec<char> = Vec::new();
        t.push('\u{1}');
        out.insert(0, t);
        proof {
            assert(views(out@) =~= seq![root_comp()] + piece_comps(split_slash(p@)));
        }
    } else if first_is_dot {
        let mut t: Vec<char> = Vec::new();
        t.push('\u{2}');
        out.insert(0, t);
        proof {
            assert(views(out@) =~= seq![cur_comp()] + piece_comps(split_slash(p@)));
        }
    } else {
        proof {
            assert(views(out@) =~= Seq::<Seq<char>>::empty() + piece_comps(split_slash(p@)));
        }
    }
    out
}

/// Character order: the first difference decides, and a proper prefix comes first.
pub open spec fn chars_less(a: Seq<char>, b: Seq<char>) -> bool
    decreases a.len(),
{
    if a.len() == 0 {
        b.len() > 0
    } else if b.len() == 0 {
        false
    } else if a[0] != b[0] {
        a[0] < b[0]
    } else {
        chars_less(a.drop_first(), b.drop_first())
    }
}

/// The same order lifted to sequences of components.
pub open spec fn comps_less(a: Seq<Seq<char>>, b: Seq<Seq<char>>) -> bool
    decreases a.len(),
{
    if a.len() == 0 {
        b.len() > 0
    } else if b.len() == 0 {
        false
    } else if a[0] != b[0] {
        chars_less(a[0], b[0])
    } else {
        comps_less(a.drop_first(), b.drop_first())
    }
}

/// The order of `std::path::Path`: component by component.
pub open spec fn path_less(a: Seq<char>, b: Seq<char>) -> bool {
    comps_less(components_spec(a), components_spec(b))
}

/// Equality of `std::path::Path`: the same components.
pub open spec fn path_eq(a: Seq<char>, b: Seq<char>) -> bool {
    components_spec(a) == components_spec(b)
}

pub proof fn lemma_chars_less_asymmetric(a: Seq<char>, b: Seq<char>)
    ensures
        chars_less(a, b) ==> !chars_less(b, a),
    decreases a.len(),
{
    if a.len() > 0 && b.len() > 0 && a[0] == b[0] {
        lemma_chars_less_asymmetric(a.drop_first(), b.drop_first());
    }
}

pub proof fn lemma_comps_less_asymmetric(a: Seq<Seq<char>>, b: Seq<Seq<char>>)
    ensures
        comps_less(a, b) ==> !comps_less(b, a),
    decreases a.len(),
{
    if a.len() > 0 && b.len() > 0 {
        if a[0] == b[0] {
            lemma_comps_less_asymmetric(a.drop_first(), b.drop_first());
        } else {
            lemma_chars_less_asymmetric(a[0], b[0]);
        }
    }
}

/// Character order of two character slices.
pub fn chars_less_exec(a: &[char], b: &[char]) -> (r: bool)
    ensures
        r == chars_less(a@, b@),
{
    let mut k: usize = 0;
    assert(a@.skip(0) =~= a@);
    assert(b@.skip(0) =~= b@);
    while k < a.len() && k < b.len() && a[k] == b[k]
        invariant
            k <= a@.len(),
            k <= b@.len(),
            chars_less(a@, b@) == chars_less(a@.skip(k as int), b@.skip(k as int)),
        decreases a@.len() - k,
    {
        proof {
            assert(a@.skip(k as int).drop_first() =~= a@.skip(k + 1));
            assert(b@.skip(k as int).drop_first() =~= b@.skip(k + 1));
        }
        k += 1;
    }
    if k == a.len() {
        k < b.len()
    } else if k == b.len() {
        false
    } else {
        a[k] < b[k]
    }
}

fn chars_eq_exec(a: &[char], b: &[char]) -> (r: bool)
    ensures
        r == (a@ == b@),
{
    if a.len() != b.len() {
        return false;
    }
    let mut k: usize = 0;
    while k < a.len()
        invariant
            a@.len() == b@.len(),
            k <= a@.len(),
            forall|j: int| 0 <= j < k ==> a@[j] == b@[j],
        decreases a@.len() - k,
    {
        if a[k] != b[k] {
            return false;
        }
        k += 1;
    }
    assert(a@ =~= b@);
    true
}

pub(crate) fn comps_less_exec(a: &Vec<Vec<char>>, b: &Vec<Vec<char>>) -> (r: bool)
    ensures
        r == comps_less(views(a@), views(b@)),
{
    let ghost va = views(a@);
    let ghost vb = views(b@);
    let mut k: usize = 0;
    assert(va.skip(0) =~= va);
    assert(vb.skip(0) =~= vb);
    while k < a.len() && k < b.len() && chars_eq_exec(a[k].as_slice(), b[k].as_slice())
        invariant
            k <= a@.len(),
            k <= b@.len(),
            va == views(a@),
            vb == views(b@),
            comps_less(va, vb) == comps_less(va.skip(k as int), vb.skip(k as int)),
        decreases a@.len() - k,
    {
        proof {
            assert(va.skip(k as int).drop_first() =~= va.skip(k + 1));
            assert(vb.skip(k as int).drop_first() =~= vb.skip(k + 1));
            assert(va.skip(k as int)[0] == va[k as int]);
            assert(vb.skip(k as int)[0] == vb[k as int]);
        }
        k += 1;
    }
    if k == a.len() {
        k < b.len()
    } else if k == b.len() {
        false
    } else {
        proof {
            assert(va.skip(k as int)[0] == a@[k as int]@);
            assert(vb.skip(k as int)[0] == b@[k as int]@);
        }
        chars_less_exec(a[k].as_slice(), b[k].as_slice())
    }
}

/// Whether two texts name the same path.
pub fn path_eq_exec(a: &[char], b: &[char]) -> (r: bool)
    ensures
        r == path_eq(a@, b@),
{
    let ca = components(a);
    let cb = components(b);
    if ca.len() != cb.len() {
        proof {
            assert(views(ca@).len() != views(cb@).len());
        }
        return false;
    }
    let mut k: usize = 0;
    while k < ca.len()
        invariant
            ca@.len() == cb@.len(),
            k <= ca@.len(),
            forall|j: int| 0 <= j < k ==> ca@[j]@ == cb@[j]@,
            views(ca@) == components_spec(a@),
            views(cb@) == components_spec(b@),
        decreases ca@.len() - k,
    {
        if !chars_eq_exec(ca[k].as_slice(), cb[k].as_slice()) {
            proof {
                assert(views(ca@)[k as int] != views(cb@)[k as int]);
                assert(views(ca@) != views(cb@));
            }
            return false;
        }
        k += 1;
    }
    assert(views(ca@) =~= views(cb@));
    true
}

} // verus!
