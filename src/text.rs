//! Character-level text helpers: whitespace, trimming and splitting on a
//! pattern, stated over `Seq<char>` and computed over ranges of a `Vec<char>`.
use vstd::prelude::*;

verus! {

/// The characters that Unicode classifies as `White_Space`.
pub open spec fn is_ws(c: char) -> bool {
    let u = c as u32;
    (9 <= u && u <= 13) || u == 32 || u == 0x85 || u == 0xA0 || u == 0x1680
        || (0x2000 <= u && u <= 0x200A) || u == 0x2028 || u == 0x2029 || u == 0x202F
        || u == 0x205F || u == 0x3000
}

pub open spec fn is_paren(c: char) -> bool {
    c == '(' || c == ')'
}

/// The class of characters stripped at the ends: parentheses when `parens`
/// holds, whitespace otherwise.
pub open spec fn in_class(c: char, parens: bool) -> bool {
    if parens {
        is_paren(c)
    } else {
        is_ws(c)
    }
}

/// `s` without its leading characters of the class.
pub open spec fn strip_start(s: Seq<char>, parens: bool) -> Seq<char>
    decreases s.len(),
{
    if s.len() > 0 && in_class(s[0], parens) {
        strip_start(s.drop_first(), parens)
    } else {
        s
    }
}

/// `s` without its trailing characters of the class.
pub open spec fn strip_end(s: Seq<char>, parens: bool) -> Seq<char>
    decreases s.len(),
{
    if s.len() > 0 && in_class(s.last(), parens) {
        strip_end(s.drop_last(), parens)
    } else {
        s
    }
}

/// `s` without whitespace at either end.
pub open spec fn trim(s: Seq<char>) -> Seq<char> {
    strip_end(strip_start(s, false), false)
}

/// `s` without parentheses at either end (not balanced: every one goes).
pub open spec fn strip_parens(s: Seq<char>) -> Seq<char> {
    strip_end(strip_start(s, true), true)
}

pub open spec fn arrow() -> Seq<char> {
    seq!['-', '>']
}

pub open spec fn comma() -> Seq<char> {
    seq![',']
}

/// `->` starts at index `i` of `s`.
pub open spec fn arrow_at(s: Seq<char>, i: int) -> bool {
    0 <= i && i + 1 < s.len() && s[i] == '-' && s[i + 1] == '>'
}

/// `p` occurs in `s` at index `i`.
pub open spec fn matches_at(s: Seq<char>, i: int, p: Seq<char>) -> bool {
    0 <= i && i + p.len() <= s.len() && s.subrange(i, i + p.len()) == p
}

/// The pieces of `s` between the occurrences of `p`, found left to right
/// without overlap; always at least one piece.
pub open spec fn split_pat(s: Seq<char>, p: Seq<char>) -> Seq<Seq<char>>
    decreases s.len(),
{
    if s.len() == 0 {
        seq![Seq::<char>::empty()]
    } else if p.len() > 0 && matches_at(s, 0, p) {
        seq![Seq::<char>::empty()] + split_pat(s.subrange(p.len() as int, s.len() as int), p)
    } else {
        let r = split_pat(s.drop_first(), p);
        r.update(0, seq![s[0]] + r[0])
    }
}

pub proof fn lemma_split_nonempty(s: Seq<char>, p: Seq<char>)
    ensures
        split_pat(s, p).len() >= 1,
    decreases s.len(),
{
    if s.len() == 0 {
    } else if p.len() > 0 && matches_at(s, 0, p) {
        lemma_split_nonempty(s.subrange(p.len() as int, s.len() as int), p);
    } else {
        lemma_split_nonempty(s.drop_first(), p);
    }
}

proof fn lemma_matches_shift(s: Seq<char>, i: int, p: Seq<char>)
    requires
        s.len() > 0,
        0 <= i,
    ensures
        matches_at(s.drop_first(), i, p) == matches_at(s, i + 1, p),
{
    if i + p.len() <= s.len() - 1 {
        assert(s.drop_first().subrange(i, i + p.len()) =~= s.subrange(i + 1, i + 1 + p.len()));
    }
}

/// Where `p` does not occur, `s` is one piece.
pub proof fn lemma_split_none(s: Seq<char>, p: Seq<char>)
    requires
        p.len() > 0,
        forall|i: int| 0 <= i < s.len() ==> !matches_at(s, i, p),
    ensures
        split_pat(s, p) == seq![s],
    decreases s.len(),
{
    if s.len() > 0 {
        assert(!matches_at(s, 0, p));
        assert forall|i: int| 0 <= i < s.drop_first().len() implies !matches_at(
            s.drop_first(),
            i,
            p,
        ) by {
            lemma_matches_shift(s, i, p);
        }
        lemma_split_none(s.drop_first(), p);
        assert(seq![s[0]] + s.drop_first() =~= s);
        assert(split_pat(s, p) =~= seq![s]);
    } else {
        assert(s =~= Seq::<char>::empty());
    }
}

/// Where the first occurrence of `p` is at `k`, the first piece is what
/// comes before it.
pub proof fn lemma_split_first(s: Seq<char>, p: Seq<char>, k: int)
    requires
        p.len() > 0,
        matches_at(s, k, p),
        forall|i: int| 0 <= i < k ==> !matches_at(s, i, p),
    ensures
        split_pat(s, p) == seq![s.subrange(0, k)] + split_pat(
            s.subrange(k + p.len(), s.len() as int),
            p,
        ),
    decreases k,
{
    if k == 0 {
        assert(s.subrange(0, 0) =~= Seq::<char>::empty());
    } else {
        let t = s.drop_first();
        lemma_matches_shift(s, k - 1, p);
        assert forall|i: int| 0 <= i < k - 1 implies !matches_at(t, i, p) by {
            lemma_matches_shift(s, i, p);
        }
        assert(!matches_at(s, 0, p));
        lemma_split_first(t, p, k - 1);
        assert(seq![s[0]] + t.subrange(0, k - 1) =~= s.subrange(0, k));
        assert(t.subrange(k - 1 + p.len(), t.len() as int) =~= s.subrange(
            k + p.len(),
            s.len() as int,
        ));
        assert(split_pat(s, p) =~= seq![s.subrange(0, k)] + split_pat(
            s.subrange(k + p.len(), s.len() as int),
            p,
        ));
    }
}

pub proof fn lemma_match_comma(s: Seq<char>, i: int)
    ensures
        matches_at(s, i, comma()) <==> (0 <= i < s.len() && s[i] == ','),
{
    if 0 <= i < s.len() && s[i] == ',' {
        assert(s.subrange(i, i + 1) =~= comma());
    }
    if matches_at(s, i, comma()) {
        assert(s.subrange(i, i + 1)[0] == s[i]);
    }
}

pub proof fn lemma_match_arrow(s: Seq<char>, i: int)
    ensures
        matches_at(s, i, arrow()) <==> arrow_at(s, i),
{
    if 0 <= i && i + 1 < s.len() && s[i] == '-' && s[i + 1] == '>' {
        assert(s.subrange(i, i + 2) =~= arrow());
    }
    if matches_at(s, i, arrow()) {
        assert(s.subrange(i, i + 2)[0] == s[i]);
        assert(s.subrange(i, i + 2)[1] == s[i + 1]);
    }
}

/// Splitting `w[lo..hi]` on commas where it holds none.
pub proof fn lemma_comma_none(w: Seq<char>, lo: int, hi: int)
    requires
        0 <= lo <= hi <= w.len(),
        forall|i: int| lo <= i < hi ==> w[i] != ',',
    ensures
        split_pat(w.subrange(lo, hi), comma()) == seq![w.subrange(lo, hi)],
{
    let s = w.subrange(lo, hi);
    assert forall|i: int| 0 <= i < s.len() implies !matches_at(s, i, comma()) by {
        lemma_match_comma(s, i);
    }
    lemma_split_none(s, comma());
}

/// Splitting `w[lo..hi]` on commas where the first one is at `k`.
pub proof fn lemma_comma_first(w: Seq<char>, lo: int, hi: int, k: int)
    requires
        0 <= lo <= k < hi <= w.len(),
        w[k] == ',',
        forall|i: int| lo <= i < k ==> w[i] != ',',
    ensures
        split_pat(w.subrange(lo, hi), comma()) == seq![w.subrange(lo, k)] + split_pat(
            w.subrange(k + 1, hi),
            comma(),
        ),
{
    let s = w.subrange(lo, hi);
    lemma_match_comma(s, k - lo);
    assert forall|i: int| 0 <= i < k - lo implies !matches_at(s, i, comma()) by {
        lemma_match_comma(s, i);
    }
    lemma_split_first(s, comma(), k - lo);
    assert(s.subrange(0, k - lo) =~= w.subrange(lo, k));
    assert(s.subrange(k - lo + 1, s.len() as int) =~= w.subrange(k + 1, hi));
}

/// Splitting `w[lo..hi]` on arrows where it holds none.
pub proof fn lemma_arrow_none(w: Seq<char>, lo: int, hi: int)
    requires
        0 <= lo <= hi <= w.len(),
        forall|i: int| lo <= i && i + 1 < hi ==> !arrow_at(w, i),
    ensures
        split_pat(w.subrange(lo, hi), arrow()) == seq![w.subrange(lo, hi)],
{
    let s = w.subrange(lo, hi);
    assert forall|i: int| 0 <= i < s.len() implies !matches_at(s, i, arrow()) by {
        lemma_match_arrow(s, i);
        if arrow_at(s, i) {
            assert(arrow_at(w, lo + i));
        }
    }
    lemma_split_none(s, arrow());
}

/// Splitting `w[lo..hi]` on arrows where the first one is at `k`.
pub proof fn lemma_arrow_first(w: Seq<char>, lo: int, hi: int, k: int)
    requires
        0 <= lo <= k,
        k + 1 < hi <= w.len(),
        arrow_at(w, k),
        forall|i: int| lo <= i < k ==> !arrow_at(w, i),
    ensures
        split_pat(w.subrange(lo, hi), arrow()) == seq![w.subrange(lo, k)] + split_pat(
            w.subrange(k + 2, hi),
            arrow(),
        ),
{
    let s = w.subrange(lo, hi);
    lemma_match_arrow(s, k - lo);
    assert forall|i: int| 0 <= i < k - lo implies !matches_at(s, i, arrow()) by {
        lemma_match_arrow(s, i);
        if arrow_at(s, i) {
            assert(arrow_at(w, lo + i));
        }
    }
    lemma_split_first(s, arrow(), k - lo);
    assert(s.subrange(0, k - lo) =~= w.subrange(lo, k));
    assert(s.subrange(k - lo + 2, s.len() as int) =~= w.subrange(k + 2, hi));
}

/// No `->` in `x`.
pub open spec fn no_arrow(x: Seq<char>) -> bool {
    forall|i: int| !arrow_at(x, i)
}

/// No comma in `x`.
pub open spec fn no_comma(x: Seq<char>) -> bool {
    forall|i: int| 0 <= i < x.len() ==> x[i] != ','
}

/// `x` neither starts nor ends with whitespace.
pub open spec fn is_trimmed(x: Seq<char>) -> bool {
    x.len() > 0 ==> !is_ws(x[0]) && !is_ws(x.last())
}

pub proof fn lemma_sub_free(x: Seq<char>, a: int, b: int)
    requires
        0 <= a <= b <= x.len(),
    ensures
        no_arrow(x) ==> no_arrow(x.subrange(a, b)),
        no_comma(x) ==> no_comma(x.subrange(a, b)),
{
    let y = x.subrange(a, b);
    if no_arrow(x) {
        assert forall|i: int| !arrow_at(y, i) by {
            if arrow_at(y, i) {
                assert(arrow_at(x, a + i));
            }
        }
    }
    if no_comma(x) {
        assert forall|i: int| 0 <= i < y.len() implies y[i] != ',' by {
            assert(y[i] == x[a + i]);
        }
    }
}

/// `a + b` holds no `->` where neither does and none spans the seam.
pub proof fn lemma_concat_no_arrow(a: Seq<char>, b: Seq<char>)
    requires
        no_arrow(a),
        no_arrow(b),
        !(a.len() > 0 && b.len() > 0 && a.last() == '-' && b[0] == '>'),
    ensures
        no_arrow(a + b),
{
    let c = a + b;
    assert forall|i: int| !arrow_at(c, i) by {
        if arrow_at(c, i) {
            if i + 1 < a.len() {
                assert(arrow_at(a, i));
            } else if i >= a.len() {
                assert(arrow_at(b, i - a.len()));
            }
        }
    }
}

/// The pieces of a split: the first is a prefix of `s`, none holds `p`,
/// and none holds `->` where `s` holds none.
pub proof fn lemma_pieces(s: Seq<char>, p: Seq<char>)
    requires
        p.len() > 0,
    ensures
        split_pat(s, p).len() >= 1,
        split_pat(s, p)[0].len() <= s.len(),
        split_pat(s, p)[0] == s.subrange(0, split_pat(s, p)[0].len() as int),
        forall|j: int, i: int|
            0 <= j < split_pat(s, p).len() ==> !#[trigger] matches_at(split_pat(s, p)[j], i, p),
        no_arrow(s) ==> forall|j: int|
            0 <= j < split_pat(s, p).len() ==> no_arrow(#[trigger] split_pat(s, p)[j]),
    decreases s.len(),
{
    let sp = split_pat(s, p);
    if s.len() == 0 {
        assert(s.subrange(0, 0) =~= sp[0]);
        assert forall|j: int, i: int| 0 <= j < sp.len() implies !matches_at(sp[j], i, p) by {}
        assert forall|j: int| 0 <= j < sp.len() implies no_arrow(sp[j]) by {
            assert forall|i: int| !arrow_at(sp[j], i) by {}
        }
    } else if matches_at(s, 0, p) {
        let rest = s.subrange(p.len() as int, s.len() as int);
        lemma_pieces(rest, p);
        let rp = split_pat(rest, p);
        assert(sp == seq![Seq::<char>::empty()] + rp);
        assert(s.subrange(0, 0) =~= sp[0]);
        assert forall|j: int, i: int| 0 <= j < sp.len() implies !matches_at(sp[j], i, p) by {
            if j > 0 {
                assert(sp[j] == rp[j - 1]);
            }
        }
        if no_arrow(s) {
            lemma_sub_free(s, p.len() as int, s.len() as int);
            assert forall|j: int| 0 <= j < sp.len() implies no_arrow(sp[j]) by {
                if j > 0 {
                    assert(sp[j] == rp[j - 1]);
                } else {
                    assert forall|i: int| !arrow_at(sp[j], i) by {}
                }
            }
        }
    } else {
        let t = s.drop_first();
        lemma_pieces(t, p);
        let r = split_pat(t, p);
        let n = r[0].len() as int;
        assert(sp == r.update(0, seq![s[0]] + r[0]));
        assert(sp[0] =~= s.subrange(0, n + 1));
        assert forall|j: int, i: int| 0 <= j < sp.len() implies !matches_at(sp[j], i, p) by {
            if j == 0 && matches_at(sp[0], i, p) {
                if i == 0 {
                    assert(sp[0].subrange(0, p.len() as int) =~= s.subrange(0, p.len() as int));
                } else {
                    assert(sp[0].subrange(i, i + p.len()) =~= r[0].subrange(
                        i - 1,
                        i - 1 + p.len(),
                    ));
                    assert(matches_at(r[0], i - 1, p));
                }
            }
        }
        if no_arrow(s) {
            lemma_sub_free(s, 1, s.len() as int);
            assert(t =~= s.subrange(1, s.len() as int));
            lemma_sub_free(s, 0, n + 1);
            assert forall|j: int| 0 <= j < sp.len() implies no_arrow(sp[j]) by {}
        }
    }
}

proof fn lemma_strip_start_suffix(x: Seq<char>, parens: bool)
    ensures
        strip_start(x, parens).len() <= x.len(),
        strip_start(x, parens) == x.subrange(
            x.len() - strip_start(x, parens).len(),
            x.len() as int,
        ),
        strip_start(x, parens).len() > 0 ==> !in_class(strip_start(x, parens)[0], parens),
    decreases x.len(),
{
    if x.len() > 0 && in_class(x[0], parens) {
        lemma_strip_start_suffix(x.drop_first(), parens);
        let y = strip_start(x.drop_first(), parens);
        assert(x.drop_first().subrange(x.len() - 1 - y.len(), x.len() - 1) =~= x.subrange(
            x.len() - y.len(),
            x.len() as int,
        ));
    } else {
        assert(x.subrange(0, x.len() as int) =~= x);
    }
}

proof fn lemma_strip_end_prefix(x: Seq<char>, parens: bool)
    ensures
        strip_end(x, parens).len() <= x.len(),
        strip_end(x, parens) == x.subrange(0, strip_end(x, parens).len() as int),
        strip_end(x, parens).len() > 0 ==> !in_class(strip_end(x, parens).last(), parens),
    decreases x.len(),
{
    if x.len() > 0 && in_class(x.last(), parens) {
        lemma_strip_end_prefix(x.drop_last(), parens);
        let y = strip_end(x.drop_last(), parens);
        assert(x.drop_last().subrange(0, y.len() as int) =~= x.subrange(0, y.len() as int));
    } else {
        assert(x.subrange(0, x.len() as int) =~= x);
    }
}

/// Stripping both ends leaves a range of `x` whose ends are out of the
/// class.
pub proof fn lemma_strip_range(x: Seq<char>, parens: bool) -> (r: (int, int))
    ensures
        0 <= r.0 <= r.1 <= x.len(),
        strip_end(strip_start(x, parens), parens) == x.subrange(r.0, r.1),
        r.0 < r.1 ==> !in_class(x[r.0], parens) && !in_class(x[r.1 - 1], parens),
{
    lemma_strip_start_suffix(x, parens);
    let y = strip_start(x, parens);
    lemma_strip_end_prefix(y, parens);
    let z = strip_end(y, parens);
    let a = x.len() - y.len();
    assert(z =~= x.subrange(a, a + z.len()));
    if z.len() > 0 {
        assert(z[0] == y[0]);
        assert(z.last() == x[a + z.len() - 1]);
    }
    (a, a + z.len())
}

proof fn lemma_strip_start_skip(pre: Seq<char>, y: Seq<char>, parens: bool)
    requires
        forall|i: int| 0 <= i < pre.len() ==> in_class(pre[i], parens),
    ensures
        strip_start(pre + y, parens) == strip_start(y, parens),
    decreases pre.len(),
{
    if pre.len() > 0 {
        assert((pre + y).drop_first() =~= pre.drop_first() + y);
        lemma_strip_start_skip(pre.drop_first(), y, parens);
    } else {
        assert(pre + y =~= y);
    }
}

proof fn lemma_strip_end_skip(y: Seq<char>, post: Seq<char>, parens: bool)
    requires
        forall|i: int| 0 <= i < post.len() ==> in_class(post[i], parens),
    ensures
        strip_end(y + post, parens) == strip_end(y, parens),
    decreases post.len(),
{
    if post.len() > 0 {
        assert((y + post).drop_last() =~= y + post.drop_last());
        lemma_strip_end_skip(y, post.drop_last(), parens);
    } else {
        assert(y + post =~= y);
    }
}

/// Stripping `pre + x + post`, where `pre` and `post` are of the class and
/// `x` neither starts nor ends with it, gives `x`.
pub proof fn lemma_strip_around(pre: Seq<char>, x: Seq<char>, post: Seq<char>, parens: bool)
    requires
        forall|i: int| 0 <= i < pre.len() ==> in_class(pre[i], parens),
        forall|i: int| 0 <= i < post.len() ==> in_class(post[i], parens),
        x.len() > 0 ==> !in_class(x[0], parens) && !in_class(x.last(), parens),
    ensures
        strip_end(strip_start(pre + x + post, parens), parens) == x,
{
    assert(pre + x + post =~= pre + (x + post));
    lemma_strip_start_skip(pre, x + post, parens);
    if x.len() > 0 {
        assert(strip_start(x + post, parens) == x + post);
        lemma_strip_end_skip(x, post, parens);
    } else {
        assert(x + post =~= post + x);
        lemma_strip_start_skip(post, x, parens);
    }
}

pub fn is_ws_char(c: char) -> (r: bool)
    ensures
        r == is_ws(c),
{
    let u = c as u32;
    (9 <= u && u <= 13) || u == 32 || u == 0x85 || u == 0xA0 || u == 0x1680 || (0x2000 <= u
        && u <= 0x200A) || u == 0x2028 || u == 0x2029 || u == 0x202F || u == 0x205F || u
        == 0x3000
}

fn in_class_char(c: char, parens: bool) -> (r: bool)
    ensures
        r == in_class(c, parens),
{
    if parens {
        c == '(' || c == ')'
    } else {
        is_ws_char(c)
    }
}

/// The characters of a string.
pub fn chars_of(line: &str) -> (r: Vec<char>)
    ensures
        r@ == line@,
{
    let n = line.unicode_len();
    let mut r: Vec<char> = Vec::new();
    let mut i: usize = 0;
    while i < n
        invariant
            n == line@.len(),
            i <= n,
            r@ == line@.subrange(0, i as int),
        decreases n - i,
    {
        r.push(line.get_char(i));
        i = i + 1;
        assert(r@ =~= line@.subrange(0, i as int));
    }
    assert(r@ =~= line@);
    r
}

/// The characters `lo..hi` of a string, as a string.
pub fn string_of(line: &str, lo: usize, hi: usize) -> (r: String)
    requires
        lo <= hi <= line@.len(),
    ensures
        r@ == line@.subrange(lo as int, hi as int),
{
    String::from_str(line.substring_char(lo, hi))
}

/// The bounds of `s[lo..hi]` once the characters of the class are stripped
/// from both ends.
pub fn strip_range(s: &Vec<char>, lo: usize, hi: usize, parens: bool) -> (r: (usize, usize))
    requires
        lo <= hi <= s@.len(),
    ensures
        lo <= r.0 <= r.1 <= hi,
        s@.subrange(r.0 as int, r.1 as int) == strip_end(
            strip_start(s@.subrange(lo as int, hi as int), parens),
            parens,
        ),
{
    let mut i: usize = lo;
    while i < hi && in_class_char(s[i], parens)
        invariant
            lo <= i <= hi <= s@.len(),
            strip_start(s@.subrange(i as int, hi as int), parens) == strip_start(
                s@.subrange(lo as int, hi as int),
                parens,
            ),
        decreases hi - i,
    {
        assert(s@.subrange(i as int, hi as int).drop_first() =~= s@.subrange(
            i + 1,
            hi as int,
        ));
        i = i + 1;
    }
    let mut j: usize = hi;
    while j > i && in_class_char(s[j - 1], parens)
        invariant
            lo <= i <= j <= hi <= s@.len(),
            strip_end(s@.subrange(i as int, j as int), parens) == strip_end(
                strip_start(s@.subrange(lo as int, hi as int), parens),
                parens,
            ),
        decreases j,
    {
        assert(s@.subrange(i as int, j as int).drop_last() =~= s@.subrange(
            i as int,
            j - 1,
        ));
        j = j - 1;
    }
    (i, j)
}

/// The first index in `lo..hi` that holds `c`.
pub fn find_char(s: &Vec<char>, lo: usize, hi: usize, c: char) -> (r: Option<usize>)
    requires
        lo <= hi <= s@.len(),
    ensures
        match r {
            Some(k) => lo <= k < hi && s@[k as int] == c && forall|i: int|
                lo <= i < k ==> s@[i] != c,
            None => forall|i: int| lo <= i < hi ==> s@[i] != c,
        },
{
    let mut i: usize = lo;
    while i < hi
        invariant
            lo <= i <= hi <= s@.len(),
            forall|m: int| lo <= m < i ==> s@[m] != c,
        decreases hi - i,
    {
        if s[i] == c {
            return Some(i);
        }
        i = i + 1;
    }
    None
}

/// The first index in `lo..hi` where `->` starts and ends before `hi`.
pub fn find_arrow(s: &Vec<char>, lo: usize, hi: usize) -> (r: Option<usize>)
    requires
        lo <= hi <= s@.len(),
    ensures
        match r {
            Some(k) => lo <= k && k + 1 < hi && arrow_at(s@, k as int) && forall|i: int|
                lo <= i < k ==> !arrow_at(s@, i),
            None => forall|i: int| lo <= i && i + 1 < hi ==> !arrow_at(s@, i),
        },
{
    let mut i: usize = lo;
    while hi - i >= 2
        invariant
            lo <= i <= hi <= s@.len(),
            forall|m: int| lo <= m < i ==> !arrow_at(s@, m),
        decreases hi - i,
    {
        if s[i] == '-' && s[i + 1] == '>' {
            return Some(i);
        }
        i = i + 1;
    }
    None
}

} // verus!
