//! Character-level helpers: conversions between strings and character vectors,
//! whitespace, ASCII case, and substring tests.
use vstd::prelude::*;

verus! {

broadcast use vstd::string::group_string_axioms;

/// The characters of a string.
pub fn chars_of(s: &str) -> (r: Vec<char>)
    ensures
        r@ == s@,
{
    let mut r: Vec<char> = Vec::new();
    for c in it: s.chars()
        invariant
            r@ == it.seq().take(it.index() as int),
            it.seq() == s@,
    {
        r.push(c);
    }
    r
}


/// Appends one character: `String::push` from std, which adds `c` at the end.
#[verifier::external_body]
fn push_char(s: &mut String, c: char)
    ensures
        final(s)@ == old(s)@.push(c),
{
    s.push(c);
}

/// The string made of the given characters.
pub fn string_of(v: &[char]) -> (r: String)
    ensures
        r@ == v@,
{
    let mut r = String::new();
    let mut i: usize = 0;
    while i < v.len()
        invariant
            i <= v@.len(),
            r@ == v@.take(i as int),
        decreases v@.len() - i,
    {
        push_char(&mut r, v[i]);
        proof {
            assert(v@.take(i + 1) =~= v@.take(i as int).push(v@[i as int]));
        }
        i += 1;
    }
    assert(v@.take(i as int) =~= v@);
    r
}

/// Unicode `White_Space`, the set `char::is_whitespace` tests.
pub open spec fn is_ws(c: char) -> bool {
    let u = c as u32;
    (0x9 <= u <= 0xd) || u == 0x20 || u == 0x85 || u == 0xa0 || u == 0x1680 || (0x2000 <= u
        <= 0x200a) || u == 0x2028 || u == 0x2029 || u == 0x202f || u == 0x205f || u == 0x3000
}

pub fn is_ws_char(c: char) -> (r: bool)
    ensures
        r == is_ws(c),
{
    let u = c as u32;
    (0x9 <= u && u <= 0xd) || u == 0x20 || u == 0x85 || u == 0xa0 || u == 0x1680 || (0x2000 <= u
        && u <= 0x200a) || u == 0x2028 || u == 0x2029 || u == 0x202f || u == 0x205f || u == 0x3000
}

/// ASCII lower case of one character; other characters are unchanged.
pub open spec fn ascii_lower(c: char) -> char {
    if 'A' <= c <= 'Z' { ((c as u32) + 32) as char } else { c }
}

pub open spec fn ascii_lower_seq(s: Seq<char>) -> Seq<char> {
    s.map_values(|c: char| ascii_lower(c))
}

pub fn ascii_lower_char(c: char) -> (r: char)
    ensures
        r == ascii_lower(c),
{
    if 'A' <= c && c <= 'Z' {
        ((c as u8) + 32) as char
    } else {
        c
    }
}

pub fn ascii_lowercase(v: &[char]) -> (r: Vec<char>)
    ensures
        r@ == ascii_lower_seq(v@),
{
    let mut r: Vec<char> = Vec::new();
    let mut i: usize = 0;
    while i < v.len()
        invariant
            i <= v@.len(),
            r@ == ascii_lower_seq(v@.take(i as int)),
        decreases v@.len() - i,
    {
        r.push(ascii_lower_char(v[i]));
        proof {
            assert(ascii_lower_seq(v@.take(i + 1)) =~= ascii_lower_seq(v@.take(i as int)).push(
                ascii_lower(v@[i as int]),
            ));
        }
        i += 1;
    }
    assert(v@.take(i as int) =~= v@);
    r
}

/// `needle` occurs in `hay` starting at position `i`.
pub open spec fn occurs_at(hay: Seq<char>, needle: Seq<char>, i: int) -> bool {
    0 <= i && i + needle.len() <= hay.len() && hay.subrange(i, i + needle.len()) == needle
}

pub open spec fn contains_seq(hay: Seq<char>, needle: Seq<char>) -> bool {
    exists|i: int| occurs_at(hay, needle, i)
}

pub open spec fn starts_with_seq(hay: Seq<char>, prefix: Seq<char>) -> bool {
    occurs_at(hay, prefix, 0)
}

pub fn occurs_at_exec(hay: &[char], needle: &[char], i: usize) -> (r: bool)
    ensures
        r == occurs_at(hay@, needle@, i as int),
{
    if i > hay.len() || needle.len() > hay.len() - i {
        return false;
    }
    let n = hay.len();
    let mut k: usize = 0;
    while k < needle.len()
        invariant
            k <= needle@.len(),
            n == hay@.len(),
            i + needle@.len() <= hay@.len(),
            forall|j: int| 0 <= j < k ==> hay@[i + j] == needle@[j],
        decreases needle@.len() - k,
    {
        if hay[i + k] != needle[k] {
            assert(hay@.subrange(i as int, i + needle@.len())[k as int] != needle@[k as int]);
            return false;
        }
        k += 1;
    }
    assert(hay@.subrange(i as int, i + needle@.len()) =~= needle@);
    true
}

pub fn starts_with(hay: &[char], prefix: &[char]) -> (r: bool)
    ensures
        r == starts_with_seq(hay@, prefix@),
{
    occurs_at_exec(hay, prefix, 0)
}

pub fn contains(hay: &[char], needle: &[char]) -> (r: bool)
    ensures
        r == contains_seq(hay@, needle@),
{
    let mut i: usize = 0;
    while i < hay.len()
        invariant
            i <= hay@.len(),
            forall|j: int| 0 <= j < i ==> !occurs_at(hay@, needle@, j),
        decreases hay@.len() - i,
    {
        if occurs_at_exec(hay, needle, i) {
            return true;
        }
        i += 1;
    }
    if occurs_at_exec(hay, needle, i) {
        return true;
    }
    assert forall|j: int| !occurs_at(hay@, needle@, j) by {
        if 0 <= j && j < i {
        }
    }
    false
}

/// Index of the first character that is not whitespace, or the length.
pub open spec fn first_non_ws(s: Seq<char>) -> int
    decreases s.len(),
{
    if s.len() == 0 || !is_ws(s[0]) { 0 } else { 1 + first_non_ws(s.drop_first()) }
}

/// Length of the longest prefix without trailing whitespace.
pub open spec fn end_non_ws(s: Seq<char>) -> int
    decreases s.len(),
{
    if s.len() == 0 || !is_ws(s.last()) { s.len() as int } else { end_non_ws(s.drop_last()) }
}

proof fn lemma_first_non_ws(s: Seq<char>)
    ensures
        0 <= first_non_ws(s) <= s.len(),
        forall|k: int| 0 <= k < first_non_ws(s) ==> is_ws(#[trigger] s[k]),
        first_non_ws(s) < s.len() ==> !is_ws(s[first_non_ws(s)]),
    decreases s.len(),
{
    if s.len() > 0 && is_ws(s[0]) {
        lemma_first_non_ws(s.drop_first());
        assert forall|k: int| 0 <= k < first_non_ws(s) implies is_ws(#[trigger] s[k]) by {
            if k > 0 {
                assert(s[k] == s.drop_first()[k - 1]);
            }
        }
    }
}

proof fn lemma_end_non_ws(s: Seq<char>)
    ensures
        0 <= end_non_ws(s) <= s.len(),
        forall|k: int| end_non_ws(s) <= k < s.len() ==> is_ws(#[trigger] s[k]),
        end_non_ws(s) > 0 ==> !is_ws(s[end_non_ws(s) - 1]),
    decreases s.len(),
{
    if s.len() > 0 && is_ws(s.last()) {
        lemma_end_non_ws(s.drop_last());
        assert forall|k: int| end_non_ws(s) <= k < s.len() implies is_ws(#[trigger] s[k]) by {
            if k < s.len() - 1 {
                assert(s[k] == s.drop_last()[k]);
            }
        }
    }
}

/// `s` without leading and trailing whitespace.
pub open spec fn trim_spec(s: Seq<char>) -> Seq<char> {
    let a = first_non_ws(s);
    if a == s.len() { Seq::empty() } else { s.subrange(a, end_non_ws(s)) }
}

/// Strips leading and trailing whitespace, as `str::trim` does.
pub fn trim(v: &[char]) -> (r: Vec<char>)
    ensures
        r@ == trim_spec(v@),
{
    let mut a: usize = 0;
    assert(v@.subrange(0, v@.len() as int) =~= v@);
    while a < v.len() && is_ws_char(v[a])
        invariant
            a <= v@.len(),
            first_non_ws(v@) == a + first_non_ws(v@.subrange(a as int, v@.len() as int)),
        decreases v@.len() - a,
    {
        proof {
            let t = v@.subrange(a as int, v@.len() as int);
            assert(t.drop_first() =~= v@.subrange(a + 1, v@.len() as int));
        }
        a += 1;
    }
    proof {
        assert(v@.subrange(0, v@.len() as int) =~= v@);
        let t = v@.subrange(a as int, v@.len() as int);
        if a < v@.len() {
            assert(t[0] == v@[a as int]);
        }
        assert(first_non_ws(t) == 0);
    }
    if a == v.len() {
        return Vec::new();
    }
    let mut b: usize = v.len();
    proof {
        lemma_first_non_ws(v@);
        assert(v@.take(b as int) =~= v@);
    }
    while b > a && is_ws_char(v[b - 1])
        invariant
            a < v@.len(),
            a < b <= v@.len(),
            !is_ws(v@[a as int]),
            end_non_ws(v@) == end_non_ws(v@.take(b as int)),
        decreases b,
    {
        proof {
            assert(v@.take(b as int).drop_last() =~= v@.take(b - 1));
        }
        b -= 1;
    }
    proof {
        lemma_first_non_ws(v@);
        assert(!is_ws(v@[a as int]));
        if b > a {
            assert(v@.take(b as int).last() == v@[b - 1]);
        } else {
            assert(b == a);
        }
        assert(end_non_ws(v@.take(b as int)) == b);
    }
    let mut r: Vec<char> = Vec::new();
    let mut i: usize = a;
    while i < b
        invariant
            a <= i <= b <= v@.len(),
            r@ == v@.subrange(a as int, i as int),
        decreases b - i,
    {
        r.push(v[i]);
        proof {
            assert(v@.subrange(a as int, i + 1) =~= v@.subrange(a as int, i as int).push(v@[i as int]));
        }
        i += 1;
    }
    r
}


/// The maximal runs of non-whitespace characters of `s`, in order.
pub open spec fn words(s: Seq<char>) -> Seq<Seq<char>>
    decreases s.len(),
{
    if s.len() == 0 {
        Seq::empty()
    } else if is_ws(s.last()) {
        words(s.drop_last())
    } else if s.len() >= 2 && !is_ws(s[s.len() - 2]) {
        let w = words(s.drop_last());
        w.update(w.len() - 1, w.last().push(s.last()))
    } else {
        words(s.drop_last()).push(seq![s.last()])
    }
}

/// Words joined with one space between neighbours.
pub open spec fn join_spaced(w: Seq<Seq<char>>) -> Seq<char>
    decreases w.len(),
{
    if w.len() == 0 {
        Seq::empty()
    } else if w.len() == 1 {
        w[0]
    } else {
        join_spaced(w.drop_last()) + seq![' '] + w.last()
    }
}

proof fn lemma_words_nonempty(s: Seq<char>)
    requires
        s.len() > 0,
        !is_ws(s.last()),
    ensures
        words(s).len() > 0,
    decreases s.len(),
{
    if s.len() >= 2 && !is_ws(s[s.len() - 2]) {
        assert(s.drop_last().last() == s[s.len() - 2]);
        lemma_words_nonempty(s.drop_last());
    }
}

proof fn lemma_join_extend_last(w: Seq<Seq<char>>, c: char)
    requires
        w.len() > 0,
    ensures
        join_spaced(w.update(w.len() - 1, w.last().push(c))) == join_spaced(w).push(c),
{
    let w2 = w.update(w.len() - 1, w.last().push(c));
    if w.len() >= 2 {
        assert(w2.drop_last() =~= w.drop_last());
        assert(join_spaced(w2) =~= join_spaced(w).push(c));
    }
}

/// Each word is non-empty and holds no whitespace.
pub proof fn lemma_words_clean(s: Seq<char>)
    ensures
        forall|i: int| 0 <= i < words(s).len() ==> (#[trigger] words(s)[i]).len() > 0,
        forall|i: int, k: int|
            0 <= i < words(s).len() && 0 <= k < words(s)[i].len() ==> !is_ws(#[trigger] words(s)[i][k]),
    decreases s.len(),
{
    if s.len() > 0 {
        let t = s.drop_last();
        lemma_words_clean(t);
        let w = words(t);
        if !is_ws(s.last()) {
            if s.len() >= 2 && !is_ws(s[s.len() - 2]) {
                assert(t.last() == s[s.len() - 2]);
                lemma_words_nonempty(t);
                let nw = w.update(w.len() - 1, w.last().push(s.last()));
                assert forall|i: int, k: int| 0 <= i < nw.len() && 0 <= k < nw[i].len() implies !is_ws(#[trigger] nw[i][k]) by {
                    if i == w.len() - 1 {
                        if k < w.last().len() {
                            assert(nw[i][k] == w[i][k]);
                        }
                    } else {
                        assert(nw[i] == w[i]);
                    }
                }
            } else {
                let nw = w.push(seq![s.last()]);
                assert forall|i: int, k: int| 0 <= i < nw.len() && 0 <= k < nw[i].len() implies !is_ws(#[trigger] nw[i][k]) by {
                    if i < w.len() {
                        assert(nw[i] == w[i]);
                    }
                }
            }
        }
    }
}

/// Whitespace in words joined by spaces is a single space between two other
/// characters.
pub open spec fn tidy_spacing(r: Seq<char>) -> bool {
    forall|k: int|
        0 <= k < r.len() && is_ws(#[trigger] r[k]) ==> r[k] == ' ' && 0 < k < r.len() - 1 && !is_ws(r[k - 1])
            && !is_ws(r[k + 1])
}

pub proof fn lemma_join_tidy(ws: Seq<Seq<char>>)
    requires
        forall|i: int| 0 <= i < ws.len() ==> (#[trigger] ws[i]).len() > 0,
        forall|i: int, k: int| 0 <= i < ws.len() && 0 <= k < ws[i].len() ==> !is_ws(#[trigger] ws[i][k]),
    ensures
        tidy_spacing(join_spaced(ws)),
        ws.len() > 0 ==> join_spaced(ws).len() > 0,
    decreases ws.len(),
{
    if ws.len() == 1 {
        let r = join_spaced(ws);
        assert forall|k: int| 0 <= k < r.len() implies !is_ws(#[trigger] r[k]) by {
            assert(r[k] == ws[0][k]);
        }
    } else if ws.len() >= 2 {
        let t = ws.drop_last();
        assert forall|i: int| 0 <= i < t.len() implies (#[trigger] t[i]).len() > 0 by {
            assert(t[i] == ws[i]);
        }
        assert forall|i: int, k: int| 0 <= i < t.len() && 0 <= k < t[i].len() implies !is_ws(#[trigger] t[i][k]) by {
            assert(t[i] == ws[i]);
        }
        lemma_join_tidy(t);
        let p = join_spaced(t);
        let last = ws.last();
        assert(last == ws[ws.len() - 1]);
        let r = join_spaced(ws);
        assert(r == p + seq![' '] + last);
        assert(!is_ws(p[p.len() - 1]));
        assert(!is_ws(last[0]));
        assert forall|k: int| 0 <= k < r.len() && is_ws(#[trigger] r[k]) implies r[k] == ' ' && 0 < k < r.len() - 1
            && !is_ws(r[k - 1]) && !is_ws(r[k + 1]) by {
            if k < p.len() {
                assert(r[k] == p[k]);
                assert(is_ws(p[k]));
                assert(r[k - 1] == p[k - 1]);
                assert(r[k + 1] == p[k + 1]);
            } else if k == p.len() {
                assert(r[k - 1] == p[p.len() - 1]);
                assert(r[k + 1] == last[0]);
            } else {
                assert(r[k] == last[k - p.len() - 1]);
                assert(!is_ws(last[k - p.len() - 1]));
            }
        }
    }
}

/// Whitespace runs collapsed to single spaces, with none at either end: the
/// words of `v` joined by spaces.
pub fn collapse_whitespace(v: &[char]) -> (r: Vec<char>)
    ensures
        r@ == join_spaced(words(v@)),
{
    let mut r: Vec<char> = Vec::new();
    let mut i: usize = 0;
    let mut prev_ws = true;
    let mut have_word = false;
    while i < v.len()
        invariant
            i <= v@.len(),
            r@ == join_spaced(words(v@.take(i as int))),
            prev_ws == (i == 0 || is_ws(v@[i - 1])),
            have_word == (words(v@.take(i as int)).len() > 0),
        decreases v@.len() - i,
    {
        let c = v[i];
        let ghost t = v@.take(i + 1);
        let ghost w = words(v@.take(i as int));
        proof {
            assert(t.drop_last() =~= v@.take(i as int));
            assert(t.last() == c);
        }
        if is_ws_char(c) {
            prev_ws = true;
        } else if prev_ws {
            proof {
                assert(words(t) == w.push(seq![c]));
                if w.len() > 0 {
                    assert(w.push(seq![c]).drop_last() =~= w);
                }
            }
            if have_word {
                r.push(' ');
            }
            r.push(c);
            proof {
                if w.len() > 0 {
                    assert(r@ =~= join_spaced(w) + seq![' '] + seq![c]);
                } else {
                    assert(r@ =~= seq![c]);
                }
            }
            prev_ws = false;
            have_word = true;
        } else {
            proof {
                assert(t[t.len() - 2] == v@[i - 1]);
                lemma_words_nonempty(v@.take(i as int));
                assert(v@.take(i as int).last() == v@[i - 1]);
                lemma_join_extend_last(w, c);
            }
            r.push(c);
        }
        i += 1;
    }
    assert(v@.take(i as int) =~= v@);
    r
}

/// The Unicode lower case of a text, as `str::to_lowercase` maps it.
pub uninterp spec fn lowercase_spec(s: Seq<char>) -> Seq<char>;

/// Unicode lower case: `str::to_lowercase` from std. Claimed: the result
/// depends on the text alone (std's fixed case tables); the mapping itself is
/// not stated.
#[verifier::external_body]
pub(crate) fn to_lowercase(s: &str) -> (r: String)
    ensures
        r@ == lowercase_spec(s@),
{
    s.to_lowercase()
}

/// Decimal digits of `n`, most significant first, without leading zeros.
pub open spec fn decimal_spec(n: nat) -> Seq<char>
    decreases n,
{
    if n < 10 {
        seq![(('0' as int) + n) as char]
    } else {
        decimal_spec(n / 10).push((('0' as int) + n % 10) as char)
    }
}

/// Decimal text of a number.
pub fn decimal(n: u64) -> (r: Vec<char>)
    ensures
        r@ == decimal_spec(n as nat),
    decreases n,
{
    let d = ((n % 10) as u8 + 48) as char;
    if n < 10 {
        let mut r: Vec<char> = Vec::new();
        r.push(d);
        assert(r@ =~= decimal_spec(n as nat));
        r
    } else {
        let mut r = decimal(n / 10);
        r.push(d);
        r
    }
}

/// Append characters to a vector.
pub fn extend_chars(r: &mut Vec<char>, more: &[char])
    ensures
        final(r)@ == old(r)@ + more@,
{
    let mut i: usize = 0;
    while i < more.len()
        invariant
            i <= more@.len(),
            r@ == old(r)@ + more@.take(i as int),
        decreases more@.len() - i,
    {
        r.push(more[i]);
        proof {
            assert(more@.take(i + 1) =~= more@.take(i as int).push(more@[i as int]));
            assert(old(r)@ + more@.take(i + 1) =~= (old(r)@ + more@.take(i as int)).push(more@[i as int]));
        }
        i += 1;
    }
    assert(more@.take(i as int) =~= more@);
}

} // verus!
