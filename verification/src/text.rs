//! Character-level helpers shared by the parsers: Unicode whitespace,
//! trimming and splitting on whitespace, over the characters of a string.

use vstd::prelude::*;

verus! {

broadcast use vstd::string::group_string_axioms;

/// The Unicode `White_Space` property, which `char::is_whitespace` tests and
/// which `str::trim` and `str::split_whitespace` split on.
pub open spec fn is_ws(c: char) -> bool {
    let u = c as u32;
    ||| 0x09 <= u <= 0x0d
    ||| u == 0x20
    ||| u == 0x85
    ||| u == 0xa0
    ||| u == 0x1680
    ||| 0x2000 <= u <= 0x200a
    ||| u == 0x2028
    ||| u == 0x2029
    ||| u == 0x202f
    ||| u == 0x205f
    ||| u == 0x3000
}

/// Whether `c` is Unicode whitespace.
pub fn is_whitespace(c: char) -> (b: bool)
    ensures
        b == is_ws(c),
{
    let u = c as u32;
    (0x09 <= u && u <= 0x0d) || u == 0x20 || u == 0x85 || u == 0xa0 || u == 0x1680 || (0x2000
        <= u && u <= 0x200a) || u == 0x2028 || u == 0x2029 || u == 0x202f || u == 0x205f || u
        == 0x3000
}

/// Whether two strings hold the same characters.
pub fn same_text(a: &str, b: &str) -> (r: bool)
    ensures
        r == (a@ == b@),
{
    let x = String::from_str(a);
    let y = String::from_str(b);
    x == y
}

/// The characters of `s`, in order.
pub fn chars_of(s: &str) -> (v: Vec<char>)
    ensures
        v@ == s@,
{
    let mut v: Vec<char> = Vec::new();
    for c in it: s.chars()
        invariant
            v@ == it.seq().take(it.index() as int),
    {
        v.push(c);
    }
    v
}


/// Length of the run of whitespace at the start of `s`.
pub open spec fn ws_prefix_len(s: Seq<char>) -> nat
    decreases s.len(),
{
    if s.len() > 0 && is_ws(s[0]) {
        1 + ws_prefix_len(s.drop_first())
    } else {
        0
    }
}

/// Length of the run of non-whitespace at the start of `s`.
pub open spec fn word_prefix_len(s: Seq<char>) -> nat
    decreases s.len(),
{
    if s.len() > 0 && !is_ws(s[0]) {
        1 + word_prefix_len(s.drop_first())
    } else {
        0
    }
}

/// Length of the run of whitespace at the end of `s`.
pub open spec fn ws_suffix_len(s: Seq<char>) -> nat
    decreases s.len(),
{
    if s.len() > 0 && is_ws(s.last()) {
        1 + ws_suffix_len(s.drop_last())
    } else {
        0
    }
}

/// `s` without its leading and trailing whitespace (`str::trim`).
pub open spec fn trim(s: Seq<char>) -> Seq<char> {
    let t = s.skip(ws_prefix_len(s) as int);
    t.take(t.len() - ws_suffix_len(t))
}

/// The maximal runs of non-whitespace in `s`, in order (`str::split_whitespace`).
pub open spec fn words(s: Seq<char>) -> Seq<Seq<char>>
    decreases s.len(),
{
    let t = s.skip(ws_prefix_len(s) as int);
    if t.len() == 0 {
        seq![]
    } else {
        let n = word_prefix_len(t);
        proof {
            lemma_ws_prefix_len(s);
            lemma_word_prefix_len(t);
        }
        seq![t.take(n as int)] + words(t.skip(n as int))
    }
}

/// `ws_prefix_len` stops at the first non-whitespace character.
pub proof fn lemma_ws_prefix_len(s: Seq<char>)
    ensures
        ws_prefix_len(s) <= s.len(),
        forall|k: int| 0 <= k < ws_prefix_len(s) ==> is_ws(#[trigger] s[k]),
        ws_prefix_len(s) < s.len() ==> !is_ws(s[ws_prefix_len(s) as int]),
    decreases s.len(),
{
    if s.len() > 0 && is_ws(s[0]) {
        lemma_ws_prefix_len(s.drop_first());
        assert forall|k: int| 0 <= k < ws_prefix_len(s) implies is_ws(#[trigger] s[k]) by {
            if k > 0 {
                assert(s[k] == s.drop_first()[k - 1]);
            }
        }
    }
}

/// `word_prefix_len` stops at the first whitespace character.
pub proof fn lemma_word_prefix_len(s: Seq<char>)
    ensures
        word_prefix_len(s) <= s.len(),
        forall|k: int| 0 <= k < word_prefix_len(s) ==> !is_ws(#[trigger] s[k]),
        word_prefix_len(s) < s.len() ==> is_ws(s[word_prefix_len(s) as int]),
        s.len() > 0 && !is_ws(s[0]) ==> word_prefix_len(s) >= 1,
    decreases s.len(),
{
    if s.len() > 0 && !is_ws(s[0]) {
        lemma_word_prefix_len(s.drop_first());
        assert forall|k: int| 0 <= k < word_prefix_len(s) implies !is_ws(#[trigger] s[k]) by {
            if k > 0 {
                assert(s[k] == s.drop_first()[k - 1]);
            }
        }
    }
}

/// A whitespace run that ends at a non-whitespace character (or at the end) is the
/// whole leading run.
pub proof fn lemma_ws_prefix_len_is(s: Seq<char>, j: int)
    requires
        0 <= j <= s.len(),
        forall|k: int| 0 <= k < j ==> is_ws(#[trigger] s[k]),
        j == s.len() || !is_ws(s[j]),
    ensures
        ws_prefix_len(s) == j,
    decreases j,
{
    if j > 0 {
        let t = s.drop_first();
        assert forall|k: int| 0 <= k < j - 1 implies is_ws(#[trigger] t[k]) by {
            assert(t[k] == s[k + 1]);
        }
        if j < s.len() {
            assert(t[j - 1] == s[j]);
        }
        lemma_ws_prefix_len_is(t, j - 1);
    }
}

/// A non-whitespace run that ends at whitespace (or at the end) is the whole
/// leading word.
pub proof fn lemma_word_prefix_len_is(s: Seq<char>, j: int)
    requires
        0 <= j <= s.len(),
        forall|k: int| 0 <= k < j ==> !is_ws(#[trigger] s[k]),
        j == s.len() || is_ws(s[j]),
    ensures
        word_prefix_len(s) == j,
    decreases j,
{
    if j > 0 {
        let t = s.drop_first();
        assert forall|k: int| 0 <= k < j - 1 implies !is_ws(#[trigger] t[k]) by {
            assert(t[k] == s[k + 1]);
        }
        if j < s.len() {
            assert(t[j - 1] == s[j]);
        }
        lemma_word_prefix_len_is(t, j - 1);
    }
}

/// A whitespace run that starts after a non-whitespace character (or at the start)
/// is the whole trailing run.
pub proof fn lemma_ws_suffix_len_is(s: Seq<char>, j: int)
    requires
        0 <= j <= s.len(),
        forall|k: int| j <= k < s.len() ==> is_ws(#[trigger] s[k]),
        j == 0 || !is_ws(s[j - 1]),
    ensures
        ws_suffix_len(s) == s.len() - j,
    decreases s.len() - j,
{
    if j < s.len() {
        let t = s.drop_last();
        assert forall|k: int| j <= k < t.len() implies is_ws(#[trigger] t[k]) by {
            assert(t[k] == s[k]);
        }
        if j > 0 {
            assert(t[j - 1] == s[j - 1]);
        }
        lemma_ws_suffix_len_is(t, j);
    }
}

/// Every character of `s` is whitespace.
pub open spec fn all_ws(s: Seq<char>) -> bool {
    forall|i: int| 0 <= i < s.len() ==> is_ws(#[trigger] s[i])
}

/// Leading whitespace adds its length to the leading run.
pub proof fn lemma_ws_prefix_concat(w: Seq<char>, x: Seq<char>)
    requires
        all_ws(w),
    ensures
        ws_prefix_len(w + x) == w.len() + ws_prefix_len(x),
    decreases w.len(),
{
    if w.len() > 0 {
        assert((w + x)[0] == w[0]);
        assert((w + x).drop_first() =~= w.drop_first() + x);
        lemma_ws_prefix_concat(w.drop_first(), x);
    } else {
        assert(w + x =~= x);
    }
}

/// Trailing whitespace adds its length to the trailing run.
pub proof fn lemma_ws_suffix_concat(x: Seq<char>, w: Seq<char>)
    requires
        all_ws(w),
    ensures
        ws_suffix_len(x + w) == ws_suffix_len(x) + w.len(),
    decreases w.len(),
{
    if w.len() > 0 {
        assert((x + w).last() == w.last());
        assert((x + w).drop_last() =~= x + w.drop_last());
        lemma_ws_suffix_concat(x, w.drop_last());
    } else {
        assert(x + w =~= x);
    }
}

/// The trailing whitespace run is part of `s`.
pub proof fn lemma_ws_suffix_len(s: Seq<char>)
    ensures
        ws_suffix_len(s) <= s.len(),
    decreases s.len(),
{
    if s.len() > 0 && is_ws(s.last()) {
        lemma_ws_suffix_len(s.drop_last());
    }
}

/// Whitespace before the text does not change its words.
pub proof fn lemma_words_ws_before(w: Seq<char>, x: Seq<char>)
    requires
        all_ws(w),
    ensures
        words(w + x) == words(x),
{
    lemma_ws_prefix_concat(w, x);
    lemma_ws_prefix_len(x);
    assert((w + x).skip(ws_prefix_len(w + x) as int) =~= x.skip(ws_prefix_len(x) as int));
}

/// Whitespace after the text does not change its words.
pub proof fn lemma_words_ws_after(x: Seq<char>, w: Seq<char>)
    requires
        all_ws(w),
    ensures
        words(x + w) == words(x),
    decreases x.len(),
{
    let p = ws_prefix_len(x);
    lemma_ws_prefix_len(x);
    if p == x.len() {
        assert(all_ws(x));
        lemma_ws_prefix_concat(x, w);
        lemma_ws_prefix_len_is(w, w.len() as int);
        let y = x + w;
        assert(ws_prefix_len(y) == y.len());
        assert(y.skip(ws_prefix_len(y) as int).len() == 0);
        assert(x.skip(p as int).len() == 0);
        assert(words(y) == Seq::<Seq<char>>::empty());
        assert(words(x) == Seq::<Seq<char>>::empty());
    } else {
        let y = x + w;
        assert forall|k: int| 0 <= k < p implies is_ws(#[trigger] y[k]) by {
            assert(y[k] == x[k]);
        }
        assert(y[p as int] == x[p as int]);
        lemma_ws_prefix_len_is(y, p as int);
        let t = x.skip(p as int);
        assert(y.skip(p as int) =~= t + w);
        let n = word_prefix_len(t);
        lemma_word_prefix_len(t);
        let tw = t + w;
        assert forall|k: int| 0 <= k < n implies !is_ws(#[trigger] tw[k]) by {
            assert(tw[k] == t[k]);
        }
        if n < t.len() {
            assert(tw[n as int] == t[n as int]);
        } else if w.len() > 0 {
            assert(tw[n as int] == w[0]);
        }
        lemma_word_prefix_len_is(tw, n as int);
        assert(tw.take(n as int) =~= t.take(n as int));
        assert(tw.skip(n as int) =~= t.skip(n as int) + w);
        lemma_words_ws_after(t.skip(n as int), w);
        assert(words(x) == seq![t.take(n as int)] + words(t.skip(n as int)));
        assert(words(y) == seq![tw.take(n as int)] + words(tw.skip(n as int)));
    }
}

/// No character of `s` is whitespace.
pub open spec fn no_ws(s: Seq<char>) -> bool {
    forall|k: int| 0 <= k < s.len() ==> !is_ws(#[trigger] s[k])
}

/// The words `ws` joined by single spaces.
pub open spec fn join_words(ws: Seq<Seq<char>>) -> Seq<char>
    decreases ws.len(),
{
    if ws.len() == 0 {
        seq![]
    } else if ws.len() == 1 {
        ws[0]
    } else {
        ws[0] + seq![' '] + join_words(ws.drop_first())
    }
}

/// Every word of `s` is non-empty and holds no whitespace.
pub proof fn lemma_words_well_formed(s: Seq<char>)
    ensures
        forall|i: int|
            0 <= i < words(s).len() ==> (#[trigger] words(s)[i]).len() > 0 && no_ws(words(s)[i]),
    decreases s.len(),
{
    lemma_ws_prefix_len(s);
    let t = s.skip(ws_prefix_len(s) as int);
    if t.len() > 0 {
        let n = word_prefix_len(t);
        lemma_word_prefix_len(t);
        assert(!is_ws(t[0]));
        let w = t.take(n as int);
        assert forall|k: int| 0 <= k < w.len() implies !is_ws(#[trigger] w[k]) by {
            assert(w[k] == t[k]);
        }
        lemma_words_well_formed(t.skip(n as int));
        let ws = words(s);
        let rest = words(t.skip(n as int));
        assert(ws == seq![w] + rest);
        assert forall|i: int| 0 <= i < ws.len() implies (#[trigger] ws[i]).len() > 0 && no_ws(ws[i]) by {
            if i > 0 {
                assert(ws[i] == rest[i - 1]);
            }
        }
    }
}

/// Joining non-empty whitespace-free words by spaces gives back those words.
pub proof fn lemma_words_join(ws: Seq<Seq<char>>)
    requires
        forall|i: int| 0 <= i < ws.len() ==> (#[trigger] ws[i]).len() > 0 && no_ws(ws[i]),
    ensures
        words(join_words(ws)) == ws,
    decreases ws.len(),
{
    if ws.len() == 0 {
        let e = Seq::<char>::empty();
        lemma_ws_prefix_len(e);
        assert(e.skip(0).len() == 0);
        assert(words(e) =~= ws);
    } else if ws.len() == 1 {
        let e = Seq::<char>::empty();
        assert(ws[0] + e =~= ws[0]);
        lemma_words_leading_word(ws[0], e);
        lemma_words_join(ws.drop_first());
        assert(ws.drop_first().len() == 0);
        assert(seq![ws[0]] + words(e) =~= ws);
    } else {
        let rest = ws.drop_first();
        assert forall|i: int| 0 <= i < rest.len() implies (#[trigger] rest[i]).len() > 0 && no_ws(
            rest[i],
        ) by {
            assert(rest[i] == ws[i + 1]);
        }
        lemma_words_join(rest);
        let j = join_words(rest);
        let sp = seq![' '];
        assert(is_ws(' '));
        assert(all_ws(sp));
        assert(ws[0] + sp + j =~= ws[0] + (sp + j));
        assert((sp + j)[0] == ' ');
        lemma_words_leading_word(ws[0], sp + j);
        lemma_words_ws_before(sp, j);
        assert(seq![ws[0]] + rest =~= ws);
    }
}

/// A word followed by nothing or by whitespace is the first word.
pub proof fn lemma_words_leading_word(w: Seq<char>, rest: Seq<char>)
    requires
        w.len() > 0,
        forall|k: int| 0 <= k < w.len() ==> !is_ws(#[trigger] w[k]),
        rest.len() == 0 || is_ws(rest[0]),
    ensures
        words(w + rest) == seq![w] + words(rest),
{
    let y = w + rest;
    assert(y[0] == w[0]);
    lemma_ws_prefix_len_is(y, 0);
    assert(y.skip(0) =~= y);
    assert forall|k: int| 0 <= k < w.len() implies !is_ws(#[trigger] y[k]) by {
        assert(y[k] == w[k]);
    }
    if rest.len() > 0 {
        assert(y[w.len() as int] == rest[0]);
    }
    lemma_word_prefix_len_is(y, w.len() as int);
    assert(y.take(w.len() as int) =~= w);
    assert(y.skip(w.len() as int) =~= rest);
    assert(words(y) == seq![y.take(w.len() as int)] + words(y.skip(w.len() as int)));
}

/// Text that neither starts nor ends with whitespace is its own trim.
pub proof fn lemma_trim_unchanged(s: Seq<char>)
    requires
        s.len() > 0,
        !is_ws(s[0]),
        !is_ws(s.last()),
    ensures
        trim(s) == s,
{
    lemma_ws_prefix_len_is(s, 0);
    assert(s.skip(0) =~= s);
    lemma_ws_suffix_len_is(s, s.len() as int);
    assert(s.take(s.len() as int) =~= s);
}

/// Whitespace around the text does not change its words.
pub proof fn lemma_words_ws_around(w1: Seq<char>, x: Seq<char>, w2: Seq<char>)
    requires
        all_ws(w1),
        all_ws(w2),
    ensures
        words(w1 + x + w2) == words(x),
{
    assert(w1 + x + w2 =~= w1 + (x + w2));
    lemma_words_ws_before(w1, x + w2);
    lemma_words_ws_after(x, w2);
}

/// Whitespace around the text does not change what it trims to.
pub proof fn lemma_trim_ws_around(w1: Seq<char>, x: Seq<char>, w2: Seq<char>)
    requires
        all_ws(w1),
        all_ws(w2),
    ensures
        trim(w1 + x + w2) == trim(x),
{
    let y = x + w2;
    assert(w1 + x + w2 =~= w1 + y);
    lemma_ws_prefix_concat(w1, y);
    lemma_ws_prefix_len(y);
    assert((w1 + y).skip(ws_prefix_len(w1 + y) as int) =~= y.skip(ws_prefix_len(y) as int));
    let p = ws_prefix_len(x);
    lemma_ws_prefix_len(x);
    if p == x.len() {
        assert(all_ws(x));
        lemma_ws_prefix_concat(x, w2);
        lemma_ws_prefix_len_is(w2, w2.len() as int);
        assert(y.skip(ws_prefix_len(y) as int).len() == 0);
        assert(x.skip(p as int).len() == 0);
    } else {
        assert forall|k: int| 0 <= k < p implies is_ws(#[trigger] y[k]) by {
            assert(y[k] == x[k]);
        }
        assert(y[p as int] == x[p as int]);
        lemma_ws_prefix_len_is(y, p as int);
        let t = x.skip(p as int);
        assert(y.skip(p as int) =~= t + w2);
        lemma_ws_suffix_concat(t, w2);
        lemma_ws_suffix_len(t);
        let m = t.len() - ws_suffix_len(t);
        assert((t + w2).take(m) =~= t.take(m));
    }
}

/// Bounds of the next word of `s` at or after `from`, or `None` when only
/// whitespace is left.
pub fn next_word(s: &Vec<char>, from: usize) -> (r: Option<(usize, usize)>)
    requires
        from <= s@.len(),
    ensures
        r is None ==> words(s@.skip(from as int)) == Seq::<Seq<char>>::empty(),
        r matches Some((a, b)) ==> {
            &&& from <= a < b <= s@.len()
            &&& words(s@.skip(from as int)) == seq![s@.subrange(a as int, b as int)] + words(
                s@.skip(b as int),
            )
        },
{
    let n = s.len();
    let mut i = from;
    while i < n && is_whitespace(s[i])
        invariant
            from <= i <= n,
            n == s@.len(),
            forall|k: int| from <= k < i ==> is_ws(#[trigger] s@[k]),
        decreases n - i,
    {
        i = i + 1;
    }
    let ghost rest = s@.skip(from as int);
    proof {
        assert forall|k: int| 0 <= k < i - from implies is_ws(#[trigger] rest[k]) by {
            assert(rest[k] == s@[k + from]);
        }
        if i < n {
            assert(rest[i - from] == s@[i as int]);
        }
        lemma_ws_prefix_len_is(rest, i - from);
        assert(rest.skip(i - from) =~= s@.skip(i as int));
    }
    if i == n {
        return None;
    }
    let start = i;
    while i < n && !is_whitespace(s[i])
        invariant
            start <= i <= n,
            n == s@.len(),
            forall|k: int| start <= k < i ==> !is_ws(#[trigger] s@[k]),
        decreases n - i,
    {
        i = i + 1;
    }
    proof {
        let t = s@.skip(start as int);
        assert forall|k: int| 0 <= k < i - start implies !is_ws(#[trigger] t[k]) by {
            assert(t[k] == s@[k + start]);
        }
        if i < n {
            assert(t[i - start] == s@[i as int]);
        }
        lemma_word_prefix_len_is(t, i - start);
        assert(t.take(i - start) =~= s@.subrange(start as int, i as int));
        assert(t.skip(i - start) =~= s@.skip(i as int));
    }
    Some((start, i))
}

/// Bounds of `trim(s)` within `s`.
pub fn trim_bounds(s: &Vec<char>) -> (r: (usize, usize))
    ensures
        r.0 <= r.1 <= s@.len(),
        trim(s@) == s@.subrange(r.0 as int, r.1 as int),
{
    let n = s.len();
    let mut a: usize = 0;
    while a < n && is_whitespace(s[a])
        invariant
            a <= n,
            n == s@.len(),
            forall|k: int| 0 <= k < a ==> is_ws(#[trigger] s@[k]),
        decreases n - a,
    {
        a = a + 1;
    }
    let mut b: usize = n;
    while b > a && is_whitespace(s[b - 1])
        invariant
            a <= b <= n,
            n == s@.len(),
            forall|k: int| b <= k < n ==> is_ws(#[trigger] s@[k]),
        decreases b - a,
    {
        b = b - 1;
    }
    proof {
        lemma_ws_prefix_len_is(s@, a as int);
        let t = s@.skip(a as int);
        assert forall|k: int| b - a <= k < t.len() implies is_ws(#[trigger] t[k]) by {
            assert(t[k] == s@[k + a]);
        }
        if b > a {
            assert(t[b - a - 1] == s@[b - 1]);
        }
        lemma_ws_suffix_len_is(t, b - a);
        assert(t.take(b - a) =~= s@.subrange(a as int, b as int));
    }
    (a, b)
}

} // verus!
