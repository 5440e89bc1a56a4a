//! Text helpers: blank identifiers, and sets of strings kept in
//! lexicographic order of their characters.

use vstd::prelude::*;
use vstd::string::StrSliceExecFns;

verus! {

/// Whether `c` has the Unicode `White_Space` property (PropList.txt):
/// U+0009..U+000D, U+0020, U+0085, U+00A0, U+1680, U+2000..U+200A,
/// U+2028, U+2029, U+202F, U+205F and U+3000.
pub open spec fn white_space(c: char) -> bool {
    let v = c as int;
    (0x9 <= v <= 0xd) || v == 0x20 || v == 0x85 || v == 0xa0 || v == 0x1680 || (0x2000 <= v <= 0x200a)
        || v == 0x2028 || v == 0x2029 || v == 0x202f || v == 0x205f || v == 0x3000
}

/// `char::is_whitespace`.
pub fn is_white_space(c: char) -> (r: bool)
    ensures r == white_space(c),
{
    let v = c as u32;
    assert(v as int == c as int);
    (0x9 <= v && v <= 0xd) || v == 0x20 || v == 0x85 || v == 0xa0 || v == 0x1680 || (0x2000 <= v && v <= 0x200a)
        || v == 0x2028 || v == 0x2029 || v == 0x202f || v == 0x205f || v == 0x3000
}

/// Every character of `s` is white space, so that trimming leaves nothing.
pub open spec fn is_blank(s: Seq<char>) -> bool {
    forall|i: int| 0 <= i < s.len() ==> #[trigger] white_space(s[i])
}

/// Whether `s.trim()` is empty.
pub fn blank(s: &String) -> (r: bool)
    ensures r == is_blank(s@),
{
    let t = s.as_str();
    let n = t.unicode_len();
    let mut i: usize = 0;
    while i < n
        invariant
            t@ == s@,
            n == s@.len(),
            i <= n,
            forall|k: int| 0 <= k < i ==> #[trigger] white_space(s@[k]),
        decreases n - i,
    {
        let c = t.get_char(i);
        if !is_white_space(c) {
            return false;
        }
        i = i + 1;
    }
    true
}

/// Lexicographic order of character sequences, by code point.
pub open spec fn lex_lt(a: Seq<char>, b: Seq<char>) -> bool
    decreases a.len(),
{
    if b.len() == 0 {
        false
    } else if a.len() == 0 {
        true
    } else if (a[0] as int) < (b[0] as int) {
        true
    } else if a[0] == b[0] {
        lex_lt(a.drop_first(), b.drop_first())
    } else {
        false
    }
}

proof fn lemma_lex_transitive(a: Seq<char>, b: Seq<char>, c: Seq<char>)
    requires lex_lt(a, b), lex_lt(b, c),
    ensures lex_lt(a, c),
    decreases a.len(),
{
    if a.len() > 0 && b.len() > 0 && c.len() > 0 && a[0] == b[0] && b[0] == c[0] {
        lemma_lex_transitive(a.drop_first(), b.drop_first(), c.drop_first());
    }
}

proof fn lemma_lex_total(a: Seq<char>, b: Seq<char>)
    ensures a == b || lex_lt(a, b) || lex_lt(b, a),
    decreases a.len(),
{
    if a.len() > 0 && b.len() > 0 && a[0] == b[0] {
        lemma_lex_total(a.drop_first(), b.drop_first());
        if a.drop_first() == b.drop_first() {
            assert(a =~= seq![a[0]] + a.drop_first());
            assert(b =~= seq![b[0]] + b.drop_first());
        }
    } else if a.len() == 0 && b.len() == 0 {
        assert(a =~= b);
    } else if a.len() > 0 && b.len() > 0 {
        assert((a[0] as int) != (b[0] as int));
    }
}

/// `a < b` in the lexicographic order of characters.
pub fn text_less(a: &String, b: &String) -> (r: bool)
    ensures r == lex_lt(a@, b@),
{
    let sa = a.as_str();
    let sb = b.as_str();
    let na = sa.unicode_len();
    let nb = sb.unicode_len();
    let mut i: usize = 0;
    assert(a@.skip(0) =~= a@);
    assert(b@.skip(0) =~= b@);
    while i < na && i < nb
        invariant
            sa@ == a@,
            sb@ == b@,
            na == a@.len(),
            nb == b@.len(),
            i <= na,
            i <= nb,
            lex_lt(a@, b@) == lex_lt(a@.skip(i as int), b@.skip(i as int)),
        decreases na - i,
    {
        let ca = sa.get_char(i);
        let cb = sb.get_char(i);
        assert(a@.skip(i as int)[0] == ca);
        assert(b@.skip(i as int)[0] == cb);
        if (ca as u32) < (cb as u32) {
            assert((ca as u32) as int == ca as int);
            assert((cb as u32) as int == cb as int);
            return true;
        }
        if ca != cb {
            return false;
        }
        assert(a@.skip(i as int).drop_first() =~= a@.skip(i + 1));
        assert(b@.skip(i as int).drop_first() =~= b@.skip(i + 1));
        i = i + 1;
    }
    i < nb
}

/// The characters of each string.
pub open spec fn views(v: Seq<String>) -> Seq<Seq<char>> {
    v.map_values(|s: String| s@)
}

/// Strictly increasing in lexicographic order.
pub open spec fn strictly_sorted(q: Seq<Seq<char>>) -> bool {
    forall|a: int, b: int| 0 <= a < b < q.len() ==> lex_lt(#[trigger] q[a], #[trigger] q[b])
}

/// Adds `s` to the ordered set `v` unless it is already there.
pub fn insert_sorted(v: &mut Vec<String>, s: String)
    requires strictly_sorted(views(old(v)@)),
    ensures
        strictly_sorted(views(final(v)@)),
        views(final(v)@).to_set() == views(old(v)@).to_set().insert(s@),
{
    let ghost orig = views(v@);
    let mut p: usize = 0;
    while p < v.len() && text_less(&v[p], &s)
        invariant
            p <= v@.len(),
            views(v@) == orig,
            strictly_sorted(orig),
            forall|a: int| 0 <= a < p ==> lex_lt(#[trigger] orig[a], s@),
        decreases v@.len() - p,
    {
        p = p + 1;
    }
    if p < v.len() && v[p] == s {
        assert(orig[p as int] == s@);
        assert(orig.to_set().insert(s@) =~= orig.to_set());
        return;
    }
    proof {
        if p < v@.len() {
            lemma_lex_total(orig[p as int], s@);
        }
    }
    v.insert(p, s);
    let ghost now = views(v@);
    assert(now =~= orig.insert(p as int, s@));
    assert forall|a: int, b: int| 0 <= a < b < now.len() implies lex_lt(#[trigger] now[a], #[trigger] now[b]) by {
        if b == p {
            assert(now[a] == orig[a]);
        } else if a == p {
            assert(now[b] == orig[b - 1]);
            if b - 1 > p {
                lemma_lex_transitive(s@, orig[p as int], orig[b - 1]);
            }
        } else if a < p && b > p {
            assert(lex_lt(orig[a], s@));
            lemma_lex_total(orig[p as int], s@);
            lemma_lex_transitive(orig[a], s@, orig[p as int]);
            if b - 1 > p {
                lemma_lex_transitive(orig[a], orig[p as int], orig[b - 1]);
            }
        } else if a > p {
            assert(now[a] == orig[a - 1] && now[b] == orig[b - 1]);
        } else {
            assert(now[a] == orig[a] && now[b] == orig[b]);
        }
    }
    assert(now.to_set() =~= orig.to_set().insert(s@)) by {
        assert forall|x: Seq<char>| now.to_set().contains(x) <==> orig.to_set().insert(s@).contains(x) by {
            if now.to_set().contains(x) {
                let k = choose|k: int| 0 <= k < now.len() && now[k] == x;
                if k < p {
                    assert(orig[k] == x);
                } else if k > p {
                    assert(orig[k - 1] == x);
                }
            }
            if orig.to_set().contains(x) {
                let k = choose|k: int| 0 <= k < orig.len() && orig[k] == x;
                if k < p {
                    assert(now[k] == x);
                } else {
                    assert(now[k + 1] == x);
                }
            }
            if x == s@ {
                assert(now[p as int] == x);
            }
        }
    }
}


/// The ASCII decimal digit for `v` (0 ..= 9).
pub open spec fn digit_char(v: int) -> char {
    (v + 48) as char
}

/// Decimal digits of `n`, most significant first, without leading zeros.
pub open spec fn decimal(n: nat) -> Seq<char>
    decreases n,
{
    if n < 10 {
        seq![digit_char(n as int)]
    } else {
        decimal(n / 10).push(digit_char((n % 10) as int))
    }
}

/// `v` written in decimal, zero-filled after the sign to at least `width`
/// characters (the `{:0width}` format of an integer).
pub open spec fn padded(v: int, width: nat) -> Seq<char> {
    let sign: Seq<char> = if v < 0 { seq!['-'] } else { Seq::empty() };
    let digits = decimal((if v < 0 { -v } else { v }) as nat);
    let used = sign.len() + digits.len();
    let fill: nat = if used < width { (width - used) as nat } else { 0 };
    sign + Seq::new(fill, |i: int| '0') + digits
}

/// `String::push`: appends the character `c` to `s`.
#[verifier::external_body]
pub(crate) fn push_char(s: &mut String, c: char)
    ensures final(s)@ == old(s)@.push(c),
{
    s.push(c);
}

fn digit(v: u64) -> (c: char)
    requires v < 10,
    ensures c == digit_char(v as int),
{
    ((v as u8) + 48u8) as char
}

pub fn push_decimal(s: &mut String, n: u64)
    ensures final(s)@ == old(s)@ + decimal(n as nat),
    decreases n,
{
    if n >= 10 {
        push_decimal(s, n / 10);
    }
    push_char(s, digit(n % 10));
    assert(s@ =~= old(s)@ + decimal(n as nat));
}


fn decimal_len(n: u64) -> (l: u64)
    ensures l == decimal(n as nat).len(), 1 <= l <= n + 1,
    decreases n,
{
    if n >= 10 {
        decimal_len(n / 10) + 1
    } else {
        1
    }
}

fn push_zeros(s: &mut String, k: u64)
    ensures final(s)@ == old(s)@ + Seq::new(k as nat, |i: int| '0'),
{
    let mut i: u64 = 0;
    while i < k
        invariant
            i <= k,
            s@ == old(s)@ + Seq::new(i as nat, |j: int| '0'),
        decreases k - i,
    {
        push_char(s, '0');
        i = i + 1;
        assert(s@ =~= old(s)@ + Seq::new(i as nat, |j: int| '0'));
    }
}

pub fn push_padded(s: &mut String, v: i64, width: u64)
    requires width <= 20,
    ensures final(s)@ == old(s)@ + padded(v as int, width as nat),
{
    let neg = v < 0;
    let mag: u64 = if neg { (-(v as i128)) as u64 } else { v as u64 };
    let sign_len: u64 = if neg { 1 } else { 0 };
    let len = decimal_len(mag);
    let fill: u64 = if len < width && sign_len + len < width { width - (sign_len + len) } else { 0 };
    if neg {
        push_char(s, '-');
    }
    push_zeros(s, fill);
    push_decimal(s, mag);
    let ghost sign: Seq<char> = if v < 0 { seq!['-'] } else { Seq::empty() };
    assert(s@ =~= old(s)@ + padded(v as int, width as nat));
}

}
