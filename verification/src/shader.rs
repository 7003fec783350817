//! The compositor's screen shader setting: which shader the output of
//! `hyprctl getoption decoration:screen_shader` names, so that it can be put
//! back after reading. Running `hyprctl` is the application's part.
use vstd::prelude::*;
use crate::text::{chars_of, contains, contains_seq, is_ws, is_ws_char, starts_with, starts_with_seq, string_of, trim, trim_spec, words};
use crate::paths::{slice_vec, views};
use crate::archive::{eq_chars, split_lines, lemma_split_lines_push};

verus! {

/// The prefix of the line that carries a string option's value.
pub open spec fn str_prefix() -> Seq<char> {
    seq!['s', 't', 'r', ':']
}

/// What shader files end in.
pub open spec fn frag_marker() -> Seq<char> {
    seq!['.', 'f', 'r', 'a', 'g']
}

/// The value the compositor reports when no shader is set.
pub open spec fn empty_marker() -> Seq<char> {
    seq!['[', '[', 'E', 'M', 'P', 'T', 'Y', ']', ']']
}

/// `s` without its leading `"` characters.
pub open spec fn strip_lead_quotes(s: Seq<char>) -> Seq<char>
    decreases s.len(),
{
    if s.len() > 0 && s[0] == '"' { strip_lead_quotes(s.drop_first()) } else { s }
}

/// `s` without its trailing `"` characters.
pub open spec fn strip_trail_quotes(s: Seq<char>) -> Seq<char>
    decreases s.len(),
{
    if s.len() > 0 && s.last() == '"' { strip_trail_quotes(s.drop_last()) } else { s }
}

/// `s` without `"` at either end, as `trim_matches('"')` leaves it.
pub open spec fn strip_quotes(s: Seq<char>) -> Seq<char> {
    strip_trail_quotes(strip_lead_quotes(s))
}

/// The first of `ws` that contains `needle`.
pub open spec fn first_with(ws: Seq<Seq<char>>, needle: Seq<char>) -> Option<Seq<char>>
    decreases ws.len(),
{
    if ws.len() == 0 {
        None
    } else if contains_seq(ws[0], needle) {
        Some(ws[0])
    } else {
        first_with(ws.drop_first(), needle)
    }
}

/// The shader one line of the output names: the unquoted value after `str:`
/// when it is neither empty nor the empty marker; otherwise, on a line that
/// mentions `.frag`, its first whitespace-separated token that does.
pub open spec fn shader_of_line(line: Seq<char>) -> Option<Seq<char>> {
    let l = trim_spec(line);
    let value = strip_quotes(trim_spec(l.skip(4)));
    if starts_with_seq(l, str_prefix()) && value.len() > 0 && value != empty_marker() {
        Some(value)
    } else if contains_seq(l, frag_marker()) {
        first_with(words(l), frag_marker())
    } else {
        None
    }
}

/// The shader named by the first line that names one.
pub open spec fn first_shader(lines: Seq<Seq<char>>) -> Option<Seq<char>>
    decreases lines.len(),
{
    if lines.len() == 0 {
        None
    } else {
        match first_shader(lines.drop_last()) {
            Some(s) => Some(s),
            None => shader_of_line(lines.last()),
        }
    }
}

/// The shader named in the output of `hyprctl getoption
/// decoration:screen_shader`, if any.
pub open spec fn screen_shader_spec(output: Seq<char>) -> Option<Seq<char>> {
    first_shader(split_lines(output))
}

fn unquote(v: &[char]) -> (r: Vec<char>)
    ensures
        r@ == strip_quotes(v@),
{
    let mut a: usize = 0;
    assert(v@.skip(0) =~= v@);
    while a < v.len() && v[a] == '"'
        invariant
            a <= v@.len(),
            strip_lead_quotes(v@) == strip_lead_quotes(v@.skip(a as int)),
        decreases v@.len() - a,
    {
        proof {
            assert(v@.skip(a as int)[0] == v@[a as int]);
            assert(v@.skip(a as int).drop_first() =~= v@.skip(a + 1));
        }
        a += 1;
    }
    proof {
        if a < v@.len() {
            assert(v@.skip(a as int)[0] == v@[a as int]);
        }
        assert(strip_lead_quotes(v@) == v@.skip(a as int));
        assert(v@.subrange(a as int, v@.len() as int) =~= v@.skip(a as int));
    }
    let mut b: usize = v.len();
    while b > a && v[b - 1] == '"'
        invariant
            a <= b <= v@.len(),
            strip_quotes(v@) == strip_trail_quotes(v@.subrange(a as int, b as int)),
        decreases b,
    {
        proof {
            let t = v@.subrange(a as int, b as int);
            assert(t.last() == v@[b - 1]);
            assert(t.drop_last() =~= v@.subrange(a as int, b - 1));
        }
        b -= 1;
    }
    proof {
        let t = v@.subrange(a as int, b as int);
        if b > a {
            assert(t.last() == v@[b - 1]);
        }
    }
    slice_vec(v, a, b)
}

/// The maximal runs of non-whitespace characters, as `split_whitespace`
/// yields them.
pub fn split_words(v: &[char]) -> (r: Vec<Vec<char>>)
    ensures
        views(r@) == words(v@),
{
    let mut r: Vec<Vec<char>> = Vec::new();
    let mut cur: Vec<char> = Vec::new();
    let mut i: usize = 0;
    assert(v@.take(0) =~= Seq::<char>::empty());
    assert(views(r@) =~= Seq::<Seq<char>>::empty());
    while i < v.len()
        invariant
            i <= v@.len(),
            cur@.len() > 0 ==> words(v@.take(i as int)) == views(r@).push(cur@),
            cur@.len() == 0 ==> words(v@.take(i as int)) == views(r@),
            cur@.len() > 0 <==> (i > 0 && !is_ws(v@[i - 1])),
        decreases v@.len() - i,
    {
        let c = v[i];
        let ghost t = v@.take(i + 1);
        let ghost w = words(v@.take(i as int));
        let ghost r0 = r@;
        proof {
            assert(t.drop_last() =~= v@.take(i as int));
            assert(t.last() == c);
        }
        if is_ws_char(c) {
            if cur.len() > 0 {
                let done = cur;
                r.push(done);
                cur = Vec::new();
                assert(views(r@) =~= views(r0).push(done@));
            }
        } else if cur.len() > 0 {
            let ghost before = cur@;
            cur.push(c);
            proof {
                assert(t[t.len() - 2] == v@[i - 1]);
                assert(w == views(r@).push(before));
                assert(words(t) == w.update(w.len() - 1, w.last().push(c)));
                assert(words(t) =~= views(r@).push(cur@));
            }
        } else {
            cur.push(c);
            proof {
                if i > 0 {
                    assert(t[t.len() - 2] == v@[i - 1]);
                }
                assert(words(t) == w.push(seq![c]));
                assert(cur@ =~= seq![c]);
            }
        }
        i += 1;
    }
    assert(v@.take(i as int) =~= v@);
    if cur.len() > 0 {
        let ghost r0 = r@;
        let done = cur;
        r.push(done);
        assert(views(r@) =~= views(r0).push(done@));
    }
    r
}

fn first_word_with(v: &[char], needle: &[char]) -> (r: Option<Vec<char>>)
    ensures
        match r {
            Some(w) => first_with(words(v@), needle@) == Some(w@),
            None => first_with(words(v@), needle@) is None,
        },
{
    let ws = split_words(v);
    let ghost all = views(ws@);
    let mut k: usize = 0;
    assert(all.skip(0) =~= all);
    while k < ws.len()
        invariant
            k <= ws@.len(),
            all == views(ws@),
            all == words(v@),
            first_with(all, needle@) == first_with(all.skip(k as int), needle@),
        decreases ws@.len() - k,
    {
        proof {
            assert(all.skip(k as int)[0] == ws@[k as int]@);
            assert(all.skip(k as int).drop_first() =~= all.skip(k + 1));
        }
        if contains(ws[k].as_slice(), needle) {
            return Some(ws[k].clone());
        }
        k += 1;
    }
    None
}

fn shader_of_line_exec(line: &[char]) -> (r: Option<Vec<char>>)
    ensures
        match r {
            Some(s) => shader_of_line(line@) == Some(s@),
            None => shader_of_line(line@) is None,
        },
{
    let l = trim(line);
    let prefix = ['s', 't', 'r', ':'];
    assert(prefix@ =~= str_prefix());
    if starts_with(l.as_slice(), &prefix) {
        let rest = slice_vec(l.as_slice(), 4, l.len());
        assert(rest@ =~= l@.skip(4));
        let value = unquote(trim(rest.as_slice()).as_slice());
        let empty = ['[', '[', 'E', 'M', 'P', 'T', 'Y', ']', ']'];
        assert(empty@ =~= empty_marker());
        if value.len() > 0 && !eq_chars(value.as_slice(), &empty) {
            return Some(value);
        }
    }
    let frag = ['.', 'f', 'r', 'a', 'g'];
    assert(frag@ =~= frag_marker());
    if contains(l.as_slice(), &frag) {
        first_word_with(l.as_slice(), &frag)
    } else {
        None
    }
}

/// The shader named in the output of `hyprctl getoption
/// decoration:screen_shader`: the first line, trimmed, that either holds
/// `str:` and a value (unquoted, not empty, not `[[EMPTY]]`) or mentions
/// `.frag`, in which case its first token mentioning `.frag` is the shader.
pub fn parse_screen_shader(output: &str) -> (r: Option<String>)
    ensures
        match r {
            Some(s) => screen_shader_spec(output@) == Some(s@),
            None => screen_shader_spec(output@) is None,
        },
{
    let cs = chars_of(output);
    let mut line: Vec<char> = Vec::new();
    let mut found: Option<Vec<char>> = None;
    let ghost mut done: Seq<Seq<char>> = Seq::empty();
    let mut i: usize = 0;
    assert(cs@.take(0) =~= Seq::<char>::empty());
    assert(split_lines(Seq::<char>::empty()) =~= seq![Seq::<char>::empty()]) by {
        crate::paths::lemma_rfind(Seq::<char>::empty(), '\n');
    }
    assert(done.push(line@) =~= seq![Seq::<char>::empty()]);
    while i < cs.len()
        invariant
            i <= cs@.len(),
            cs@ == output@,
            split_lines(cs@.take(i as int)) == done.push(line@),
            match found {
                Some(s) => first_shader(done) == Some(s@),
                None => first_shader(done) is None,
            },
        decreases cs@.len() - i,
    {
        let c = cs[i];
        proof {
            assert(cs@.take(i + 1) =~= cs@.take(i as int).push(c));
            lemma_split_lines_push(cs@.take(i as int), c);
        }
        if c == '\n' {
            if found.is_none() {
                found = shader_of_line_exec(line.as_slice());
            }
            proof {
                let nd = done.push(line@);
                assert(nd.drop_last() =~= done);
                done = nd;
            }
            line = Vec::new();
            assert(split_lines(cs@.take(i + 1)) =~= done.push(line@));
        } else {
            line.push(c);
            assert(split_lines(cs@.take(i + 1)) =~= done.push(line@));
        }
        i += 1;
    }
    assert(cs@.take(i as int) =~= cs@);
    if found.is_none() {
        found = shader_of_line_exec(line.as_slice());
    }
    proof {
        let nd = done.push(line@);
        assert(nd.drop_last() =~= done);
    }
    match found {
        Some(s) => Some(string_of(s.as_slice())),
        None => None,
    }
}

} // verus!
