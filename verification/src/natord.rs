//! Natural order of page names: digit runs compare as decimal numbers, other
//! characters one by one, after ASCII lower-casing.
use vstd::prelude::*;
use std::cmp::Ordering;
use crate::text::{ascii_lower, ascii_lower_seq, ascii_lowercase, chars_of, decimal_spec};
use crate::seqs::{isort, insert_from_end, slice_of, skip_from, take_to};

verus! {

pub open spec fn is_digit(c: char) -> bool {
    '0' <= c <= '9'
}

/// Length of the run of digits that starts `s`.
pub open spec fn digit_run(s: Seq<char>) -> int
    decreases s.len(),
{
    if s.len() > 0 && is_digit(s[0]) { 1 + digit_run(s.drop_first()) } else { 0 }
}

pub proof fn lemma_digit_run(s: Seq<char>)
    ensures
        0 <= digit_run(s) <= s.len(),
        s.len() > 0 && is_digit(s[0]) ==> digit_run(s) >= 1,
        forall|k: int| 0 <= k < digit_run(s) ==> is_digit(#[trigger] s[k]),
        digit_run(s) < s.len() ==> !is_digit(s[digit_run(s)]),
    decreases s.len(),
{
    if s.len() > 0 && is_digit(s[0]) {
        lemma_digit_run(s.drop_first());
        assert forall|k: int| 0 <= k < digit_run(s) implies is_digit(#[trigger] s[k]) by {
            if k > 0 {
                assert(s[k] == s.drop_first()[k - 1]);
            }
        }
    }
}

/// A numeral without its leading zeros.
pub open spec fn strip_zeros(s: Seq<char>) -> Seq<char>
    decreases s.len(),
{
    if s.len() > 0 && s[0] == '0' { strip_zeros(s.drop_first()) } else { s }
}

/// Character-by-character order; a proper prefix comes first.
pub open spec fn lex_order(a: Seq<char>, b: Seq<char>) -> Ordering
    decreases a.len(),
{
    if a.len() == 0 && b.len() == 0 {
        Ordering::Equal
    } else if a.len() == 0 {
        Ordering::Less
    } else if b.len() == 0 {
        Ordering::Greater
    } else if a[0] == b[0] {
        lex_order(a.drop_first(), b.drop_first())
    } else if a[0] < b[0] {
        Ordering::Less
    } else {
        Ordering::Greater
    }
}

/// Order of two decimal numerals by value: the one with more significant
/// digits is larger, equal lengths compare digit by digit.
pub open spec fn numeral_order(a: Seq<char>, b: Seq<char>) -> Ordering {
    let x = strip_zeros(a);
    let y = strip_zeros(b);
    if x.len() < y.len() {
        Ordering::Less
    } else if x.len() > y.len() {
        Ordering::Greater
    } else {
        lex_order(x, y)
    }
}

/// Natural order of two (already lower-cased) names.
pub open spec fn nat_order(a: Seq<char>, b: Seq<char>) -> Ordering
    decreases a.len() + b.len(),
{
    if a.len() == 0 && b.len() == 0 {
        Ordering::Equal
    } else if a.len() == 0 {
        Ordering::Less
    } else if b.len() == 0 {
        Ordering::Greater
    } else if is_digit(a[0]) && is_digit(b[0]) {
        let ra = digit_run(a);
        let rb = digit_run(b);
        proof {
            lemma_digit_run(a);
            lemma_digit_run(b);
        }
        match numeral_order(a.take(ra), b.take(rb)) {
            Ordering::Equal => nat_order(a.skip(ra), b.skip(rb)),
            o => o,
        }
    } else if a[0] == b[0] {
        nat_order(a.drop_first(), b.drop_first())
    } else if a[0] < b[0] {
        Ordering::Less
    } else {
        Ordering::Greater
    }
}

/// Natural order of two page names after ASCII lower-casing.
pub open spec fn nat_cmp_spec(a: Seq<char>, b: Seq<char>) -> Ordering {
    nat_order(ascii_lower_seq(a), ascii_lower_seq(b))
}

fn zeros_end(s: &[char], i: usize, end: usize) -> (r: usize)
    requires
        i <= end <= s@.len(),
    ensures
        i <= r <= end,
        s@.subrange(r as int, end as int) == strip_zeros(s@.subrange(i as int, end as int)),
{
    let mut k = i;
    while k < end && s[k] == '0'
        invariant
            i <= k <= end <= s@.len(),
            strip_zeros(s@.subrange(k as int, end as int)) == strip_zeros(
                s@.subrange(i as int, end as int),
            ),
        decreases end - k,
    {
        proof {
            assert(s@.subrange(k as int, end as int).drop_first() =~= s@.subrange(k + 1, end as int));
        }
        k += 1;
    }
    k
}

fn lex_cmp(a: &[char], ai: usize, ae: usize, b: &[char], bi: usize, be: usize) -> (o: Ordering)
    requires
        ai <= ae <= a@.len(),
        bi <= be <= b@.len(),
    ensures
        o == lex_order(slice_of(a@, ai, ae), slice_of(b@, bi, be)),
    decreases ae - ai,
{
    let ghost x = slice_of(a@, ai, ae);
    let ghost y = slice_of(b@, bi, be);
    if ai == ae && bi == be {
        return Ordering::Equal;
    }
    if ai == ae {
        return Ordering::Less;
    }
    if bi == be {
        return Ordering::Greater;
    }
    let ca = a[ai];
    let cb = b[bi];
    assert(x[0] == ca && y[0] == cb);
    if ca == cb {
        let ai1 = ai + 1;
        let bi1 = bi + 1;
        assert(x.drop_first() =~= slice_of(a@, ai1, ae));
        assert(y.drop_first() =~= slice_of(b@, bi1, be));
        return lex_cmp(a, ai1, ae, b, bi1, be);
    }
    if ca < cb {
        Ordering::Less
    } else {
        Ordering::Greater
    }
}

pub(crate) fn run_end(s: &[char], i: usize) -> (r: usize)
    requires
        i <= s@.len(),
    ensures
        r == i + digit_run(s@.skip(i as int)),
        r <= s@.len(),
{
    let mut k = i;
    while k < s.len() && '0' <= s[k] && s[k] <= '9'
        invariant
            i <= k <= s@.len(),
            k + digit_run(s@.skip(k as int)) == i + digit_run(s@.skip(i as int)),
        decreases s@.len() - k,
    {
        proof {
            assert(s@.skip(k as int).drop_first() =~= s@.skip(k + 1));
        }
        k += 1;
    }
    proof {
        if k < s@.len() {
            assert(s@.skip(k as int)[0] == s@[k as int]);
        }
    }
    k
}

fn nat_order_exec(a: &[char], b: &[char]) -> (o: Ordering)
    ensures
        o == nat_order(a@, b@),
{
    let mut i: usize = 0;
    let mut j: usize = 0;
    assert(a@.skip(0) =~= a@);
    assert(b@.skip(0) =~= b@);
    loop
        invariant
            i <= a@.len(),
            j <= b@.len(),
            nat_order(skip_from(a@, i), skip_from(b@, j)) == nat_order(a@, b@),
        decreases a@.len() - i + b@.len() - j,
    {
        let ghost x = skip_from(a@, i);
        let ghost y = skip_from(b@, j);
        if i == a.len() && j == b.len() {
            return Ordering::Equal;
        }
        if i == a.len() {
            return Ordering::Less;
        }
        if j == b.len() {
            return Ordering::Greater;
        }
        let ca = a[i];
        let cb = b[j];
        assert(x[0] == ca && y[0] == cb);
        if '0' <= ca && ca <= '9' && '0' <= cb && cb <= '9' {
            let ea = run_end(a, i);
            let eb = run_end(b, j);
            proof {
                lemma_digit_run(x);
                lemma_digit_run(y);
                assert(x.take(ea - i) =~= slice_of(a@, i, ea));
                assert(y.take(eb - j) =~= slice_of(b@, j, eb));
                assert(x.skip(ea - i) =~= skip_from(a@, ea));
                assert(y.skip(eb - j) =~= skip_from(b@, eb));
            }
            let za = zeros_end(a, i, ea);
            let zb = zeros_end(b, j, eb);
            let o = if ea - za < eb - zb {
                Ordering::Less
            } else if ea - za > eb - zb {
                Ordering::Greater
            } else {
                lex_cmp(a, za, ea, b, zb, eb)
            };
            match o {
                Ordering::Equal => {
                    i = ea;
                    j = eb;
                },
                _ => {
                    return o;
                },
            }
        } else if ca == cb {
            i += 1;
            j += 1;
            assert(x.drop_first() =~= skip_from(a@, i));
            assert(y.drop_first() =~= skip_from(b@, j));
        } else if ca < cb {
            return Ordering::Less;
        } else {
            return Ordering::Greater;
        }
    }
}

/// Natural compare for names like `page_2.jpg` and `page_10.jpg`.
pub fn nat_cmp(a: &str, b: &str) -> (o: Ordering)
    ensures
        o == nat_cmp_spec(a@, b@),
{
    let ca = chars_of(a);
    let cb = chars_of(b);
    let la = ascii_lowercase(ca.as_slice());
    let lb = ascii_lowercase(cb.as_slice());
    nat_order_exec(la.as_slice(), lb.as_slice())
}


/// Name `a` comes before name `b` in natural order.
pub open spec fn name_less() -> spec_fn(Seq<char>, Seq<char>) -> bool {
    |a: Seq<char>, b: Seq<char>| nat_cmp_spec(a, b) == Ordering::Less
}

/// Page `a` comes before page `b` in natural order.
pub open spec fn page_less() -> spec_fn(String, String) -> bool {
    |a: String, b: String| name_less()(a@, b@)
}

fn insert_page(r: &mut Vec<String>, e: String)
    ensures
        final(r)@ == insert_from_end(old(r)@, e, page_less()),
{
    let mut p: usize = r.len();
    loop
        invariant
            p <= r@.len(),
            forall|k: int| p <= k < r@.len() ==> page_less()(e, #[trigger] r@[k]),
        ensures
            p <= r@.len(),
            forall|k: int| p <= k < r@.len() ==> page_less()(e, #[trigger] r@[k]),
            p > 0 ==> !page_less()(e, r@[p - 1]),
        decreases p,
    {
        if p == 0 {
            break;
        }
        match nat_cmp(e.as_str(), r[p - 1].as_str()) {
            Ordering::Less => {
                p -= 1;
            },
            _ => {
                break;
            },
        }
    }
    proof {
        crate::seqs::lemma_insert_from_end_at_index(r@, e, page_less(), p);
    }
    r.insert(p, e);
}

/// Sort page names into natural order (stable).
pub fn sort_pages(pages: &mut Vec<String>)
    ensures
        final(pages)@ == isort(old(pages)@, page_less()),
{
    let mut r: Vec<String> = Vec::new();
    let mut i: usize = 0;
    while i < pages.len()
        invariant
            i <= pages@.len(),
            r@ == isort(take_to(pages@, i), page_less()),
        decreases pages@.len() - i,
    {
        proof {
            crate::seqs::lemma_isort_take_index(pages@, i, page_less());
        }
        let e = pages[i].clone();
        insert_page(&mut r, e);
        i += 1;
    }
    assert(take_to(pages@, i) =~= pages@);
    *pages = r;
}

/// Every name is in natural order with itself.
pub proof fn lemma_nat_order_reflexive(a: Seq<char>)
    ensures
        nat_order(a, a) == Ordering::Equal,
    decreases a.len(),
{
    if a.len() > 0 {
        if is_digit(a[0]) {
            let r = digit_run(a);
            lemma_digit_run(a);
            lemma_lex_order_reflexive(strip_zeros(a.take(r)));
            lemma_nat_order_reflexive(a.skip(r));
        } else {
            lemma_nat_order_reflexive(a.drop_first());
        }
    }
}

proof fn lemma_lex_order_reflexive(a: Seq<char>)
    ensures
        lex_order(a, a) == Ordering::Equal,
    decreases a.len(),
{
    if a.len() > 0 {
        lemma_lex_order_reflexive(a.drop_first());
    }
}

pub open spec fn flip(o: Ordering) -> Ordering {
    match o {
        Ordering::Less => Ordering::Greater,
        Ordering::Equal => Ordering::Equal,
        Ordering::Greater => Ordering::Less,
    }
}

proof fn lemma_lex_order_flip(a: Seq<char>, b: Seq<char>)
    ensures
        lex_order(b, a) == flip(lex_order(a, b)),
    decreases a.len(),
{
    if a.len() > 0 && b.len() > 0 && a[0] == b[0] {
        lemma_lex_order_flip(a.drop_first(), b.drop_first());
    }
}

/// Swapping the names reverses their natural order.
pub proof fn lemma_nat_order_flip(a: Seq<char>, b: Seq<char>)
    ensures
        nat_order(b, a) == flip(nat_order(a, b)),
    decreases a.len() + b.len(),
{
    if a.len() > 0 && b.len() > 0 {
        if is_digit(a[0]) && is_digit(b[0]) {
            let ra = digit_run(a);
            let rb = digit_run(b);
            lemma_digit_run(a);
            lemma_digit_run(b);
            lemma_lex_order_flip(strip_zeros(a.take(ra)), strip_zeros(b.take(rb)));
            lemma_nat_order_flip(a.skip(ra), b.skip(rb));
        } else if a[0] == b[0] {
            lemma_nat_order_flip(a.drop_first(), b.drop_first());
        }
    }
}

/// The order of two numbers.
pub open spec fn num_order(m: nat, n: nat) -> Ordering {
    if m < n {
        Ordering::Less
    } else if m == n {
        Ordering::Equal
    } else {
        Ordering::Greater
    }
}

proof fn lemma_digit_char(k: int)
    requires
        0 <= k < 10,
    ensures
        ((('0' as int) + k) as char) as int == 48 + k,
{
}

proof fn lemma_lower_keeps_non_digit(c: char)
    requires
        !is_digit(c),
    ensures
        !is_digit(ascii_lower(c)),
{
}

/// A run of exactly `k` digits starts `s`.
proof fn lemma_digit_run_at(s: Seq<char>, k: int)
    requires
        0 <= k <= s.len(),
        forall|i: int| 0 <= i < k ==> is_digit(#[trigger] s[i]),
        k == s.len() || !is_digit(s[k]),
    ensures
        digit_run(s) == k,
    decreases k,
{
    if k > 0 {
        let t = s.drop_first();
        assert forall|i: int| 0 <= i < k - 1 implies is_digit(#[trigger] t[i]) by {
            assert(t[i] == s[i + 1]);
        }
        if k < s.len() {
            assert(t[k - 1] == s[k]);
        }
        lemma_digit_run_at(t, k - 1);
    }
}

/// The decimal numeral of `n` is made of digits and starts with `0` only for
/// `n == 0`.
proof fn lemma_decimal_digits(n: nat)
    ensures
        decimal_spec(n).len() >= 1,
        forall|i: int| 0 <= i < decimal_spec(n).len() ==> is_digit(#[trigger] decimal_spec(n)[i]),
        n >= 1 ==> decimal_spec(n)[0] != '0',
        n < 10 ==> decimal_spec(n).len() == 1,
        n >= 10 ==> decimal_spec(n).len() >= 2,
    decreases n,
{
    if n < 10 {
        lemma_digit_char(n as int);
    } else {
        lemma_decimal_digits(n / 10);
        lemma_digit_char((n % 10) as int);
        let a = decimal_spec(n / 10);
        let c = (('0' as int) + n % 10) as char;
        assert forall|i: int| 0 <= i < a.push(c).len() implies is_digit(#[trigger] a.push(c)[i]) by {
            if i < a.len() {
                assert(a.push(c)[i] == a[i]);
            }
        }
        assert(a.push(c)[0] == a[0]);
    }
}

proof fn lemma_strip_decimal(n: nat)
    ensures
        strip_zeros(decimal_spec(n)) == (if n == 0 { Seq::<char>::empty() } else { decimal_spec(n) }),
{
    lemma_decimal_digits(n);
    if n == 0 {
        lemma_digit_char(0);
        assert(decimal_spec(n).drop_first() =~= Seq::<char>::empty());
        assert(strip_zeros(decimal_spec(n).drop_first()) == Seq::<char>::empty());
    }
}

/// Appending one character to each of two equally long strings decides only
/// a tie.
proof fn lemma_lex_push(a: Seq<char>, b: Seq<char>, c: char, d: char)
    requires
        a.len() == b.len(),
    ensures
        lex_order(a.push(c), b.push(d)) == (if lex_order(a, b) == Ordering::Equal {
            lex_order(seq![c], seq![d])
        } else {
            lex_order(a, b)
        }),
    decreases a.len(),
{
    if a.len() == 0 {
        assert(a.push(c) =~= seq![c]);
        assert(b.push(d) =~= seq![d]);
    } else {
        assert(a.push(c)[0] == a[0]);
        assert(b.push(d)[0] == b[0]);
        assert(a.push(c).drop_first() =~= a.drop_first().push(c));
        assert(b.push(d).drop_first() =~= b.drop_first().push(d));
        lemma_lex_push(a.drop_first(), b.drop_first(), c, d);
    }
}

/// The one-digit numerals of `m` and `n` compare as `m` and `n` do; a longer
/// numeral is its leading digits followed by the numeral of its last digit.
proof fn lemma_decimal_digit_order(m: nat, n: nat)
    ensures
        m < 10 && n < 10 ==> (decimal_spec(m)[0] < decimal_spec(n)[0]) == (m < n),
        m < 10 && n < 10 ==> (decimal_spec(m)[0] == decimal_spec(n)[0]) == (m == n),
        m < 10 ==> decimal_spec(m) == seq![decimal_spec(m)[0]],
        m >= 10 ==> decimal_spec(m) == decimal_spec(m / 10).push(decimal_spec(m % 10)[0]),
{
    if m < 10 {
        lemma_digit_char(m as int);
    }
    if n < 10 {
        lemma_digit_char(n as int);
    }
    lemma_digit_char((m % 10) as int);
    if m < 10 {
        assert(decimal_spec(m) =~= seq![decimal_spec(m)[0]]);
    }
}

proof fn lemma_lex_single(c: char, d: char)
    ensures
        lex_order(seq![c], seq![d]) == (if c < d {
            Ordering::Less
        } else if c == d {
            Ordering::Equal
        } else {
            Ordering::Greater
        }),
{
    assert(seq![c].drop_first() =~= Seq::<char>::empty());
    assert(seq![d].drop_first() =~= Seq::<char>::empty());
    assert(lex_order(seq![c].drop_first(), seq![d].drop_first()) == Ordering::Equal);
}

/// Numerals of positive numbers: the longer one is the larger number, and
/// equally long ones compare digit by digit as their numbers do.
proof fn lemma_decimal_compare(m: nat, n: nat)
    requires
        m >= 1,
        n >= 1,
    ensures
        decimal_spec(m).len() < decimal_spec(n).len() ==> m < n,
        decimal_spec(m).len() > decimal_spec(n).len() ==> m > n,
        decimal_spec(m).len() == decimal_spec(n).len() ==> lex_order(decimal_spec(m), decimal_spec(n))
            == num_order(m, n),
    decreases m + n,
{
    lemma_decimal_digits(m);
    lemma_decimal_digits(n);
    lemma_decimal_digit_order(m, n);
    lemma_decimal_digit_order(n, m);
    if m < 10 && n < 10 {
        lemma_lex_single(decimal_spec(m)[0], decimal_spec(n)[0]);
    } else if m >= 10 && n >= 10 {
        lemma_decimal_compare(m / 10, n / 10);
        let cm = decimal_spec(m % 10)[0];
        let cn = decimal_spec(n % 10)[0];
        lemma_decimal_digit_order(m % 10, n % 10);
        if decimal_spec(m / 10).len() == decimal_spec(n / 10).len() {
            lemma_lex_push(decimal_spec(m / 10), decimal_spec(n / 10), cm, cn);
            lemma_lex_single(cm, cn);
        }
    }
}

/// Two numerals compare by the value of their numbers.
proof fn lemma_numeral_order_decimal(m: nat, n: nat)
    ensures
        numeral_order(decimal_spec(m), decimal_spec(n)) == num_order(m, n),
{
    lemma_strip_decimal(m);
    lemma_strip_decimal(n);
    lemma_decimal_digits(m);
    lemma_decimal_digits(n);
    if m >= 1 && n >= 1 {
        lemma_decimal_compare(m, n);
    }
}

/// A numeral followed by text that does not start with a digit is one whole
/// digit run.
proof fn lemma_numeral_run(d: Seq<char>, t: Seq<char>)
    requires
        d.len() >= 1,
        forall|i: int| 0 <= i < d.len() ==> is_digit(#[trigger] d[i]),
        t.len() == 0 || !is_digit(t[0]),
    ensures
        is_digit((d + t)[0]),
        digit_run(d + t) == d.len(),
        (d + t).take(d.len() as int) == d,
        (d + t).skip(d.len() as int) == t,
{
    let a = d + t;
    assert forall|i: int| 0 <= i < d.len() implies is_digit(#[trigger] a[i]) by {
        assert(a[i] == d[i]);
    }
    if t.len() > 0 {
        assert(a[d.len() as int] == t[0]);
    }
    lemma_digit_run_at(a, d.len() as int);
    assert(a[0] == d[0]);
    assert(a.take(d.len() as int) =~= d);
    assert(a.skip(d.len() as int) =~= t);
}

/// A numeral followed by the same tail on both sides.
proof fn lemma_nat_order_numerals(m: nat, n: nat, t: Seq<char>)
    requires
        t.len() == 0 || !is_digit(t[0]),
    ensures
        nat_order(decimal_spec(m) + t, decimal_spec(n) + t) == num_order(m, n),
{
    lemma_decimal_digits(m);
    lemma_decimal_digits(n);
    lemma_numeral_run(decimal_spec(m), t);
    lemma_numeral_run(decimal_spec(n), t);
    lemma_numeral_order_decimal(m, n);
    lemma_nat_order_reflexive(t);
}

/// A common start that does not end inside a digit run leaves the order of
/// two names to what follows it.
proof fn lemma_nat_order_common_start(q: Seq<char>, x: Seq<char>, y: Seq<char>)
    requires
        q.len() == 0 || !is_digit(q.last()),
    ensures
        nat_order(q + x, q + y) == nat_order(x, y),
    decreases q.len(),
{
    if q.len() == 0 {
        assert(q + x =~= x);
        assert(q + y =~= y);
    } else {
        let a = q + x;
        let b = q + y;
        assert(a[0] == q[0] && b[0] == q[0]);
        if is_digit(q[0]) {
            let r = digit_run(q);
            lemma_digit_run(q);
            if r == q.len() {
                assert(is_digit(q[q.len() - 1]));
            }
            assert forall|i: int| 0 <= i < r implies is_digit(#[trigger] a[i]) by {
                assert(a[i] == q[i]);
            }
            assert forall|i: int| 0 <= i < r implies is_digit(#[trigger] b[i]) by {
                assert(b[i] == q[i]);
            }
            assert(a[r] == q[r] && b[r] == q[r]);
            lemma_digit_run_at(a, r);
            lemma_digit_run_at(b, r);
            assert(a.take(r) =~= q.take(r));
            assert(b.take(r) =~= q.take(r));
            lemma_lex_order_reflexive(strip_zeros(q.take(r)));
            assert(a.skip(r) =~= q.skip(r) + x);
            assert(b.skip(r) =~= q.skip(r) + y);
            assert(q.skip(r).last() == q.last());
            lemma_nat_order_common_start(q.skip(r), x, y);
        } else {
            assert(a.drop_first() =~= q.drop_first() + x);
            assert(b.drop_first() =~= q.drop_first() + y);
            if q.len() > 1 {
                assert(q.drop_first().last() == q.last());
            }
            lemma_nat_order_common_start(q.drop_first(), x, y);
        }
    }
}

/// Digit runs compare by the value of their numbers: two names that differ
/// only in one whole number (the text before it does not end in a digit, the
/// text after it does not start with one) are in the order of those numbers,
/// and equal when the numbers are.
pub proof fn lemma_nat_cmp_numbers(p: Seq<char>, m: nat, n: nat, s: Seq<char>)
    requires
        p.len() == 0 || !('0' <= p.last() <= '9'),
        s.len() == 0 || !('0' <= s[0] <= '9'),
    ensures
        nat_cmp_spec(p + decimal_spec(m) + s, p + decimal_spec(n) + s) == (if m < n {
            Ordering::Less
        } else if m == n {
            Ordering::Equal
        } else {
            Ordering::Greater
        }),
{
    let lp = ascii_lower_seq(p);
    let ls = ascii_lower_seq(s);
    lemma_decimal_digits(m);
    lemma_decimal_digits(n);
    let dm = decimal_spec(m);
    let dn = decimal_spec(n);
    assert(ascii_lower_seq(p + dm + s) =~= lp + (dm + ls)) by {
        assert forall|i: int| 0 <= i < dm.len() implies ascii_lower(#[trigger] dm[i]) == dm[i] by {
            assert(is_digit(dm[i]));
        }
    }
    assert(ascii_lower_seq(p + dn + s) =~= lp + (dn + ls)) by {
        assert forall|i: int| 0 <= i < dn.len() implies ascii_lower(#[trigger] dn[i]) == dn[i] by {
            assert(is_digit(dn[i]));
        }
    }
    if p.len() > 0 {
        lemma_lower_keeps_non_digit(p.last());
        assert(lp.last() == ascii_lower(p.last()));
    }
    if s.len() > 0 {
        lemma_lower_keeps_non_digit(s[0]);
        assert(ls[0] == ascii_lower(s[0]));
    }
    lemma_nat_order_common_start(lp, dm + ls, dn + ls);
    lemma_nat_order_numerals(m, n, ls);
}

} // verus!


