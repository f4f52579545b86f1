//! Splitting text into lines and lines into whitespace-separated tokens.
//!
//! Lines end at `'\n'`; tokens are the maximal runs of characters that are
//! not Unicode white space (the `White_Space` property, as `char::is_whitespace`).
use vstd::prelude::*;

verus! {

/// The characters with the Unicode `White_Space` property.
pub open spec fn is_white_space(c: char) -> bool {
    let u = c as u32;
    ||| 0x09 <= u <= 0x0d
    ||| u == 0x20
    ||| u == 0x85
    ||| u == 0xa0
    ||| u == 0x1680
    ||| 0x2000 <= u <= 0x200a
    ||| u == 0x2028
    ||| u == 0x2029
    ||| u == 0x202f
    ||| u == 0x205f
    ||| u == 0x3000
}

/// Whether `c` is a white-space character.
pub fn white_space(c: char) -> (b: bool)
    ensures
        b == is_white_space(c),
{
    let u: u32 = c as u32;
    (0x09 <= u && u <= 0x0d) || u == 0x20 || u == 0x85 || u == 0xa0 || u == 0x1680 || (0x2000
        <= u && u <= 0x200a) || u == 0x2028 || u == 0x2029 || u == 0x202f || u == 0x205f || u
        == 0x3000
}

/// The position of the first `'\n'` at or after `k`, or `s.len()` if there is none.
pub open spec fn next_newline(s: Seq<char>, k: int) -> int
    decreases s.len() - k,
{
    if k >= s.len() {
        s.len() as int
    } else if s[k] == '\n' {
        k
    } else {
        next_newline(s, k + 1)
    }
}

/// The lines of `s` that start at `start`: the text up to each `'\n'`, and
/// after the last one the rest of the text.
pub open spec fn lines_from(s: Seq<char>, start: int) -> Seq<Seq<char>>
    decreases s.len() - start,
{
    let e = next_newline(s, start);
    if start <= e < s.len() {
        seq![s.subrange(start, e)] + lines_from(s, e + 1)
    } else {
        seq![s.subrange(start, s.len() as int)]
    }
}

/// The lines of a text.
pub open spec fn lines(s: Seq<char>) -> Seq<Seq<char>> {
    lines_from(s, 0)
}

/// The position of the first character at or after `k` that is not white space.
pub open spec fn skip_white(t: Seq<char>, k: int) -> int
    decreases t.len() - k,
{
    if k >= t.len() {
        t.len() as int
    } else if !is_white_space(t[k]) {
        k
    } else {
        skip_white(t, k + 1)
    }
}

/// The position of the first white-space character at or after `k`, or `t.len()`.
pub open spec fn word_end(t: Seq<char>, k: int) -> int
    decreases t.len() - k,
{
    if k >= t.len() {
        t.len() as int
    } else if is_white_space(t[k]) {
        k
    } else {
        word_end(t, k + 1)
    }
}

/// The tokens of `t` from position `k` on.
pub open spec fn tokens_from(t: Seq<char>, k: int) -> Seq<Seq<char>>
    decreases t.len() - k,
{
    let b = skip_white(t, k);
    if k <= b < t.len() {
        let e = word_end(t, b);
        if b < e <= t.len() {
            seq![t.subrange(b, e)] + tokens_from(t, e)
        } else {
            seq![]
        }
    } else {
        seq![]
    }
}

/// The tokens of a line.
pub open spec fn tokens(t: Seq<char>) -> Seq<Seq<char>> {
    tokens_from(t, 0)
}

pub proof fn lemma_next_newline_bounds(s: Seq<char>, k: int)
    requires
        0 <= k <= s.len(),
    ensures
        k <= next_newline(s, k) <= s.len(),
        next_newline(s, k) < s.len() ==> s[next_newline(s, k)] == '\n',
    decreases s.len() - k,
{
    if k < s.len() && s[k] != '\n' {
        lemma_next_newline_bounds(s, k + 1);
    }
}

pub proof fn lemma_skip_white_bounds(t: Seq<char>, k: int)
    requires
        0 <= k <= t.len(),
    ensures
        k <= skip_white(t, k) <= t.len(),
        skip_white(t, k) < t.len() ==> !is_white_space(t[skip_white(t, k)]),
    decreases t.len() - k,
{
    if k < t.len() && is_white_space(t[k]) {
        lemma_skip_white_bounds(t, k + 1);
    }
}

pub proof fn lemma_word_end_bounds(t: Seq<char>, k: int)
    requires
        0 <= k <= t.len(),
    ensures
        k <= word_end(t, k) <= t.len(),
        forall|i: int| k <= i < word_end(t, k) ==> !is_white_space(#[trigger] t[i]),
    decreases t.len() - k,
{
    if k < t.len() && !is_white_space(t[k]) {
        lemma_word_end_bounds(t, k + 1);
    }
}

/// Every line is free of `'\n'`.
pub proof fn lemma_lines_have_no_newline(s: Seq<char>)
    ensures
        forall|i: int, j: int|
            0 <= i < lines(s).len() && 0 <= j < lines(s)[i].len() ==> #[trigger] lines(s)[i][j]
                != '\n',
{
    lemma_lines_from_no_newline(s, 0);
}

proof fn lemma_lines_from_no_newline(s: Seq<char>, start: int)
    requires
        0 <= start <= s.len(),
    ensures
        forall|i: int, j: int|
            0 <= i < lines_from(s, start).len() && 0 <= j < lines_from(s, start)[i].len()
                ==> #[trigger] lines_from(s, start)[i][j] != '\n',
    decreases s.len() - start,
{
    let e = next_newline(s, start);
    lemma_next_newline_bounds(s, start);
    lemma_no_newline_before(s, start);
    let l = lines_from(s, start);
    if start <= e < s.len() {
        lemma_lines_from_no_newline(s, e + 1);
        let rest = lines_from(s, e + 1);
        assert(l == seq![s.subrange(start, e)] + rest);
        assert forall|i: int, j: int| 0 <= i < l.len() && 0 <= j < l[i].len() implies #[trigger] l[i][j]
            != '\n' by {
            if i == 0 {
                assert(l[0][j] == s[start + j]);
            } else {
                assert(l[i] == rest[i - 1]);
            }
        }
    } else {
        assert forall|i: int, j: int| 0 <= i < l.len() && 0 <= j < l[i].len() implies #[trigger] l[i][j]
            != '\n' by {
            assert(l[0][j] == s[start + j]);
        }
    }
}

proof fn lemma_no_newline_before(s: Seq<char>, k: int)
    requires
        0 <= k <= s.len(),
    ensures
        forall|j: int| k <= j < next_newline(s, k) ==> s[j] != '\n',
    decreases s.len() - k,
{
    if k < s.len() && s[k] != '\n' {
        lemma_no_newline_before(s, k + 1);
    }
}

/// Every token is a non-empty run of characters that are not white space.
pub proof fn lemma_tokens_are_words(t: Seq<char>)
    ensures
        forall|i: int| 0 <= i < tokens(t).len() ==> #[trigger] tokens(t)[i].len() > 0,
        forall|i: int, j: int|
            0 <= i < tokens(t).len() && 0 <= j < tokens(t)[i].len() ==> !is_white_space(
                #[trigger] tokens(t)[i][j],
            ),
{
    lemma_tokens_from_are_words(t, 0);
}

proof fn lemma_tokens_from_are_words(t: Seq<char>, k: int)
    requires
        0 <= k <= t.len(),
    ensures
        forall|i: int| 0 <= i < tokens_from(t, k).len() ==> #[trigger] tokens_from(t, k)[i].len() > 0,
        forall|i: int, j: int|
            0 <= i < tokens_from(t, k).len() && 0 <= j < tokens_from(t, k)[i].len()
                ==> !is_white_space(#[trigger] tokens_from(t, k)[i][j]),
    decreases t.len() - k,
{
    let b = skip_white(t, k);
    lemma_skip_white_bounds(t, k);
    let w = tokens_from(t, k);
    if k <= b < t.len() {
        let e = word_end(t, b);
        lemma_word_end_bounds(t, b);
        if b < e <= t.len() {
            lemma_tokens_from_are_words(t, e);
            let rest = tokens_from(t, e);
            assert(w == seq![t.subrange(b, e)] + rest);
            assert forall|i: int| 0 <= i < w.len() implies #[trigger] w[i].len() > 0 by {
                if i > 0 {
                    assert(w[i] == rest[i - 1]);
                }
            }
            assert forall|i: int, j: int| 0 <= i < w.len() && 0 <= j < w[i].len() implies !is_white_space(
                #[trigger] w[i][j],
            ) by {
                if i == 0 {
                    assert(w[0][j] == t[b + j]);
                } else {
                    assert(w[i] == rest[i - 1]);
                }
            }
        }
    }
}

proof fn lemma_next_newline_shift(a: Seq<char>, b: Seq<char>, k: int)
    requires
        0 <= k <= b.len(),
    ensures
        next_newline(a + b, a.len() + k) == a.len() + next_newline(b, k),
    decreases b.len() - k,
{
    if k < b.len() {
        assert((a + b)[a.len() + k] == b[k]);
        if b[k] != '\n' {
            lemma_next_newline_shift(a, b, k + 1);
        }
    }
}

proof fn lemma_lines_from_shift(a: Seq<char>, b: Seq<char>, k: int)
    requires
        0 <= k <= b.len(),
    ensures
        lines_from(a + b, a.len() + k) == lines_from(b, k),
    decreases b.len() - k,
{
    let e = next_newline(b, k);
    lemma_next_newline_shift(a, b, k);
    lemma_next_newline_bounds(b, k);
    if k <= e < b.len() {
        lemma_lines_from_shift(a, b, e + 1);
        assert((a + b).subrange(a.len() + k, a.len() + e) =~= b.subrange(k, e));
        assert(a.len() + (e + 1) == a.len() + e + 1);
    } else {
        assert((a + b).subrange(a.len() + k, (a + b).len() as int) =~= b.subrange(k, b.len() as int));
    }
}

proof fn lemma_next_newline_within(a: Seq<char>, b: Seq<char>, k: int)
    requires
        a.len() > 0,
        a.last() == '\n',
        0 <= k < a.len(),
    ensures
        next_newline(a + b, k) == next_newline(a, k),
        k <= next_newline(a, k) < a.len(),
    decreases a.len() - k,
{
    assert((a + b)[k] == a[k]);
    if a[k] != '\n' {
        lemma_next_newline_within(a, b, k + 1);
    }
}

proof fn lemma_lines_from_nonempty(s: Seq<char>, k: int)
    ensures
        lines_from(s, k).len() > 0,
    decreases s.len() - k,
{
    let e = next_newline(s, k);
    if k <= e < s.len() {
        lemma_lines_from_nonempty(s, e + 1);
    }
}

proof fn lemma_lines_from_concat(a: Seq<char>, b: Seq<char>, k: int)
    requires
        a.len() > 0,
        a.last() == '\n',
        0 <= k <= a.len(),
    ensures
        lines_from(a + b, k) == lines_from(a, k).drop_last() + lines(b),
    decreases a.len() - k,
{
    if k == a.len() {
        lemma_lines_from_shift(a, b, 0);
        assert(next_newline(a, k) == a.len());
        assert(lines_from(a, k).drop_last() =~= Seq::<Seq<char>>::empty());
        assert(lines_from(a + b, k) =~= lines_from(a, k).drop_last() + lines(b));
    } else {
        let e = next_newline(a, k);
        lemma_next_newline_within(a, b, k);
        lemma_lines_from_concat(a, b, e + 1);
        lemma_lines_from_nonempty(a, e + 1);
        let head = a.subrange(k, e);
        assert((a + b).subrange(k, e) =~= head);
        let rest = lines_from(a, e + 1);
        assert(lines_from(a, k) == seq![head] + rest);
        assert((seq![head] + rest).drop_last() =~= seq![head] + rest.drop_last());
        assert(lines_from(a + b, k) == seq![head] + lines_from(a + b, e + 1));
        assert(lines_from(a + b, k) =~= lines_from(a, k).drop_last() + lines(b));
    }
}

/// After a text that is empty or ends with `'\n'`, the lines of what follows
/// are lines of their own: the lines of `a + b` are those of `a` without its
/// last (empty) line, then those of `b`.
pub proof fn lemma_lines_concat(a: Seq<char>, b: Seq<char>)
    requires
        a.len() == 0 || a.last() == '\n',
    ensures
        lines(a + b) == lines(a).drop_last() + lines(b),
        lines(a).len() > 0,
        lines(a).last() == Seq::<char>::empty(),
{
    if a.len() == 0 {
        assert(a + b =~= b);
        assert(next_newline(a, 0) == 0);
        assert(a.subrange(0, 0) =~= Seq::<char>::empty());
        assert(lines(a) =~= seq![Seq::<char>::empty()]);
        assert(lines(a + b) =~= lines(a).drop_last() + lines(b));
    } else {
        lemma_lines_from_concat(a, b, 0);
        lemma_lines_from_concat(a, Seq::<char>::empty(), 0);
        assert(a + Seq::<char>::empty() =~= a);
        let e: Seq<char> = Seq::empty();
        assert(next_newline(e, 0) == 0);
        assert(e.subrange(0, 0) =~= e);
        assert(lines(e) =~= seq![e]);
        lemma_lines_from_nonempty(a, 0);
        let l = lines(a);
        assert(l == l.drop_last() + seq![e]);
        assert(l.last() == (l.drop_last() + seq![e]).last());
    }
}

proof fn lemma_next_newline_is(s: Seq<char>, k: int, n: int)
    requires
        0 <= k <= n < s.len(),
        s[n] == '\n',
        forall|j: int| k <= j < n ==> s[j] != '\n',
    ensures
        next_newline(s, k) == n,
    decreases n - k,
{
    if k < n {
        lemma_next_newline_is(s, k + 1, n);
    }
}

/// A line without `'\n'`, ended by `'\n'`, is the first line of what it starts.
pub proof fn lemma_lines_of_line_then(l: Seq<char>, b: Seq<char>)
    requires
        forall|j: int| 0 <= j < l.len() ==> l[j] != '\n',
    ensures
        lines(l.push('\n') + b) == seq![l] + lines(b),
{
    let s = l.push('\n');
    lemma_lines_concat(s, b);
    lemma_next_newline_is(s, 0, l.len() as int);
    assert(s.subrange(0, l.len() as int) =~= l);
    let e: Seq<char> = Seq::empty();
    assert(next_newline(s, s.len() as int) == s.len());
    assert(s.subrange(s.len() as int, s.len() as int) =~= e);
    assert(lines_from(s, s.len() as int) =~= seq![e]);
    assert(lines(s) =~= seq![l] + seq![e]);
    assert(lines(s).drop_last() =~= seq![l]);
}

proof fn lemma_word_end_before_white(l: Seq<char>, w: Seq<char>, k: int)
    requires
        0 <= k <= l.len(),
        forall|j: int| 0 <= j < w.len() ==> is_white_space(#[trigger] w[j]),
    ensures
        word_end(l + w, k) == word_end(l, k),
    decreases l.len() - k,
{
    if k < l.len() {
        assert((l + w)[k] == l[k]);
        if !is_white_space(l[k]) {
            lemma_word_end_before_white(l, w, k + 1);
        }
    } else if w.len() > 0 {
        assert((l + w)[k] == w[0]);
    }
}

proof fn lemma_skip_white_in_white(l: Seq<char>, w: Seq<char>, k: int)
    requires
        l.len() <= k <= l.len() + w.len(),
        forall|j: int| 0 <= j < w.len() ==> is_white_space(#[trigger] w[j]),
    ensures
        skip_white(l + w, k) == l.len() + w.len(),
    decreases l.len() + w.len() - k,
{
    if k < l.len() + w.len() {
        assert((l + w)[k] == w[k - l.len()]);
        lemma_skip_white_in_white(l, w, k + 1);
    }
}

proof fn lemma_skip_white_before_white(l: Seq<char>, w: Seq<char>, k: int)
    requires
        0 <= k <= l.len(),
        forall|j: int| 0 <= j < w.len() ==> is_white_space(#[trigger] w[j]),
    ensures
        skip_white(l, k) < l.len() ==> skip_white(l + w, k) == skip_white(l, k),
        skip_white(l, k) >= l.len() ==> skip_white(l + w, k) == l.len() + w.len(),
    decreases l.len() - k,
{
    if k < l.len() {
        assert((l + w)[k] == l[k]);
        if is_white_space(l[k]) {
            lemma_skip_white_before_white(l, w, k + 1);
        }
    } else {
        lemma_skip_white_in_white(l, w, k);
    }
}

proof fn lemma_tokens_from_trailing_white(l: Seq<char>, w: Seq<char>, k: int)
    requires
        0 <= k <= l.len(),
        forall|j: int| 0 <= j < w.len() ==> is_white_space(#[trigger] w[j]),
    ensures
        tokens_from(l + w, k) == tokens_from(l, k),
    decreases l.len() - k,
{
    let b = skip_white(l, k);
    lemma_skip_white_bounds(l, k);
    lemma_skip_white_before_white(l, w, k);
    if b < l.len() {
        let e = word_end(l, b);
        lemma_word_end_bounds(l, b);
        lemma_word_end_before_white(l, w, b);
        lemma_word_end_bounds(l, b + 1);
        assert((l + w).subrange(b, e) =~= l.subrange(b, e));
        lemma_tokens_from_trailing_white(l, w, e);
    }
}

/// White space after the last token changes no token.
pub proof fn lemma_tokens_trailing_white(l: Seq<char>, w: Seq<char>)
    requires
        forall|j: int| 0 <= j < w.len() ==> is_white_space(#[trigger] w[j]),
    ensures
        tokens(l + w) == tokens(l),
{
    lemma_tokens_from_trailing_white(l, w, 0);
}

proof fn lemma_skip_white_shift(w: Seq<char>, l: Seq<char>, k: int)
    requires
        0 <= k <= l.len(),
    ensures
        skip_white(w + l, w.len() + k) == w.len() + skip_white(l, k),
    decreases l.len() - k,
{
    if k < l.len() {
        assert((w + l)[w.len() + k] == l[k]);
        if is_white_space(l[k]) {
            lemma_skip_white_shift(w, l, k + 1);
        }
    }
}

proof fn lemma_word_end_shift(w: Seq<char>, l: Seq<char>, k: int)
    requires
        0 <= k <= l.len(),
    ensures
        word_end(w + l, w.len() + k) == w.len() + word_end(l, k),
    decreases l.len() - k,
{
    if k < l.len() {
        assert((w + l)[w.len() + k] == l[k]);
        if !is_white_space(l[k]) {
            lemma_word_end_shift(w, l, k + 1);
        }
    }
}

proof fn lemma_tokens_from_shift(w: Seq<char>, l: Seq<char>, k: int)
    requires
        0 <= k <= l.len(),
    ensures
        tokens_from(w + l, w.len() + k) == tokens_from(l, k),
    decreases l.len() - k,
{
    let b = skip_white(l, k);
    lemma_skip_white_bounds(l, k);
    lemma_skip_white_shift(w, l, k);
    if b < l.len() {
        let e = word_end(l, b);
        lemma_word_end_bounds(l, b);
        lemma_word_end_shift(w, l, b);
        lemma_word_end_bounds(l, b + 1);
        assert((w + l).subrange(w.len() + b, w.len() + e) =~= l.subrange(b, e));
        lemma_tokens_from_shift(w, l, e);
    }
}

proof fn lemma_skip_white_leading(w: Seq<char>, l: Seq<char>, k: int)
    requires
        0 <= k <= w.len(),
        forall|j: int| 0 <= j < w.len() ==> is_white_space(#[trigger] w[j]),
    ensures
        skip_white(w + l, k) == skip_white(w + l, w.len() as int),
    decreases w.len() - k,
{
    if k < w.len() {
        assert((w + l)[k] == w[k]);
        lemma_skip_white_leading(w, l, k + 1);
    }
}

/// White space before the first token changes no token.
pub proof fn lemma_tokens_leading_white(w: Seq<char>, l: Seq<char>)
    requires
        forall|j: int| 0 <= j < w.len() ==> is_white_space(#[trigger] w[j]),
    ensures
        tokens(w + l) == tokens(l),
{
    lemma_tokens_from_shift(w, l, 0);
    lemma_skip_white_leading(w, l, 0);
    lemma_skip_white_shift(w, l, 0);
    lemma_skip_white_bounds(l, 0);
    let b = skip_white(l, 0);
    if b < l.len() {
        let e = word_end(l, b);
        lemma_word_end_bounds(l, b);
        lemma_word_end_shift(w, l, b);
        assert((w + l).subrange(w.len() + b, w.len() + e) =~= l.subrange(b, e));
        lemma_tokens_from_shift(w, l, e);
    }
}

proof fn lemma_skip_white_skips_white(t: Seq<char>, k: int)
    requires
        0 <= k <= t.len(),
    ensures
        forall|j: int| k <= j < skip_white(t, k) ==> is_white_space(#[trigger] t[j]),
    decreases t.len() - k,
{
    if k < t.len() && is_white_space(t[k]) {
        lemma_skip_white_skips_white(t, k + 1);
    }
}

proof fn lemma_word_end_stops(t: Seq<char>, k: int)
    requires
        0 <= k <= t.len(),
    ensures
        word_end(t, k) < t.len() ==> is_white_space(t[word_end(t, k)]),
    decreases t.len() - k,
{
    if k < t.len() && !is_white_space(t[k]) {
        lemma_word_end_stops(t, k + 1);
    }
}

/// `w` stands at position `p` of `t` as a maximal run of non-white-space characters.
pub open spec fn placed(t: Seq<char>, w: Seq<char>, p: int) -> bool {
    &&& 0 <= p
    &&& p + w.len() <= t.len()
    &&& t.subrange(p, p + w.len()) == w
    &&& w.len() > 0
    &&& !is_white_space(t[p])
    &&& p == 0 || is_white_space(t[p - 1])
    &&& p + w.len() == t.len() || is_white_space(t[p + w.len()])
}

/// The words `ws` stand in `t` at the increasing positions `ps`, all at or
/// after `k`, and cover every non-white-space character of `t` from `k` on.
pub open spec fn laid_out(t: Seq<char>, k: int, ws: Seq<Seq<char>>, ps: Seq<int>) -> bool {
    &&& ps.len() == ws.len()
    &&& forall|i: int| 0 <= i < ps.len() ==> k <= #[trigger] ps[i] && placed(t, ws[i], ps[i])
    &&& forall|i: int, j: int|
        0 <= i < j < ps.len() ==> #[trigger] ps[i] + ws[i].len() < #[trigger] ps[j]
    &&& forall|j: int|
        k <= j < t.len() && !is_white_space(#[trigger] t[j]) ==> exists|i: int|
            #![trigger ps[i]]
            0 <= i < ps.len() && ps[i] <= j < ps[i] + ws[i].len()
}

proof fn lemma_laid_out_cons(
    t: Seq<char>,
    k: int,
    w: Seq<char>,
    b: int,
    ws: Seq<Seq<char>>,
    ps: Seq<int>,
)
    requires
        k <= b,
        placed(t, w, b),
        forall|j: int| k <= j < b ==> is_white_space(#[trigger] t[j]),
        laid_out(t, b + w.len(), ws, ps),
    ensures
        laid_out(t, k, seq![w] + ws, seq![b] + ps),
{
    let e = b + w.len();
    let ws2 = seq![w] + ws;
    let ps2 = seq![b] + ps;
    assert forall|i: int| 0 < i < ps2.len() implies ws2[i] == ws[i - 1] && ps2[i] == ps[i - 1] by {}
    assert forall|i: int| 0 <= i < ps2.len() implies k <= #[trigger] ps2[i] && placed(
        t,
        ws2[i],
        ps2[i],
    ) by {}
    assert forall|i: int, j: int| 0 <= i < j < ps2.len() implies #[trigger] ps2[i] + ws2[i].len()
        < #[trigger] ps2[j] by {
        if i == 0 {
            assert(ps2[j] == ps[j - 1]);
            assert(e <= ps[j - 1]);
            assert(placed(t, ws[j - 1], ps[j - 1]));
            if e == ps[j - 1] {
                assert(!is_white_space(t[e]));
            }
        } else {
            assert(ps2[i] + ws2[i].len() == ps[i - 1] + ws[i - 1].len());
        }
    }
    assert forall|j: int| k <= j < t.len() && !is_white_space(#[trigger] t[j]) implies exists|i: int|
        #![trigger ps2[i]]
        0 <= i < ps2.len() && ps2[i] <= j < ps2[i] + ws2[i].len() by {
        if j < e {
            assert(ps2[0] <= j < ps2[0] + ws2[0].len());
        } else {
            let i = choose|i: int| #![trigger ps[i]] 0 <= i < ps.len() && ps[i] <= j < ps[i] + ws[i].len();
            assert(ps2[i + 1] == ps[i]);
            assert(ps2[i + 1] <= j < ps2[i + 1] + ws2[i + 1].len());
        }
    }
}

/// Where the tokens of `t` from `k` on stand in `t`.
proof fn lemma_token_positions_from(t: Seq<char>, k: int) -> (ps: Seq<int>)
    requires
        0 <= k <= t.len(),
        k == 0 || k == t.len() || is_white_space(t[k - 1]) || is_white_space(t[k]),
    ensures
        laid_out(t, k, tokens_from(t, k), ps),
    decreases t.len() - k,
{
    let b = skip_white(t, k);
    lemma_skip_white_bounds(t, k);
    lemma_skip_white_skips_white(t, k);
    if b < t.len() {
        let e = word_end(t, b);
        lemma_word_end_bounds(t, b);
        lemma_word_end_bounds(t, b + 1);
        lemma_word_end_stops(t, b);
        let rest = lemma_token_positions_from(t, e);
        let w = t.subrange(b, e);
        assert(tokens_from(t, k) == seq![w] + tokens_from(t, e));
        if b > k {
            assert(is_white_space(t[b - 1]));
        }
        assert(t.subrange(b, b + w.len()) =~= w);
        assert(placed(t, w, b));
        lemma_laid_out_cons(t, k, w, b, tokens_from(t, e), rest);
        seq![b] + rest
    } else {
        assert(tokens_from(t, k).len() == 0);
        let ps: Seq<int> = Seq::empty();
        assert forall|j: int| k <= j < t.len() implies is_white_space(#[trigger] t[j]) by {}
        ps
    }
}

/// The tokens of a line are its maximal runs of non-white-space characters,
/// all of them, in order: for each token there is a position in the line where
/// it stands, with white space (or the line's end) just before and just after
/// it; the positions increase with gaps between tokens; and every character
/// that is not white space lies inside one of them.
pub proof fn lemma_tokens_are_maximal_runs(t: Seq<char>) -> (ps: Seq<int>)
    ensures
        ps.len() == tokens(t).len(),
        forall|i: int|
            0 <= i < ps.len() ==> 0 <= #[trigger] ps[i] && ps[i] + tokens(t)[i].len() <= t.len()
                && t.subrange(ps[i], ps[i] + tokens(t)[i].len()) == tokens(t)[i] && tokens(t)[i].len()
                > 0,
        forall|i: int| 0 <= i < ps.len() ==> #[trigger] ps[i] == 0 || is_white_space(t[ps[i] - 1]),
        forall|i: int|
            0 <= i < ps.len() ==> #[trigger] ps[i] + tokens(t)[i].len() == t.len() || is_white_space(
                t[ps[i] + tokens(t)[i].len()],
            ),
        forall|i: int, j: int|
            0 <= i < j < ps.len() ==> #[trigger] ps[i] + tokens(t)[i].len() < #[trigger] ps[j],
        forall|j: int|
            0 <= j < t.len() && !is_white_space(#[trigger] t[j]) ==> exists|i: int|
                #![trigger ps[i]]
                0 <= i < ps.len() && ps[i] <= j < ps[i] + tokens(t)[i].len(),
{
    let ps = lemma_token_positions_from(t, 0);
    assert forall|i: int| 0 <= i < ps.len() implies placed(t, tokens(t)[i], #[trigger] ps[i]) by {}
    ps
}

/// A non-empty line without white space is its own only token.
pub proof fn lemma_word_is_its_own_token(t: Seq<char>)
    requires
        t.len() > 0,
        forall|j: int| 0 <= j < t.len() ==> !is_white_space(#[trigger] t[j]),
    ensures
        tokens(t) == seq![t],
{
    let ps = lemma_tokens_are_maximal_runs(t);
    assert(!is_white_space(t[0]));
    let i0 = choose|i: int| #![trigger ps[i]] 0 <= i < ps.len() && ps[i] <= 0 < ps[i] + tokens(t)[i].len();
    assert(ps[i0] == 0);
    if ps[i0] + tokens(t)[i0].len() < t.len() {
        assert(is_white_space(t[ps[i0] + tokens(t)[i0].len()]));
    }
    assert(tokens(t)[i0] =~= t.subrange(0, t.len() as int));
    assert(t.subrange(0, t.len() as int) =~= t);
    if ps.len() > 1 {
        if i0 == 0 {
            assert(ps[0] + tokens(t)[0].len() < ps[1]);
        } else {
            assert(ps[0] + tokens(t)[0].len() < ps[i0]);
        }
    }
    assert(i0 == 0);
    assert(tokens(t) =~= seq![t]);
}

proof fn lemma_word_end_is(s: Seq<char>, k: int, n: int)
    requires
        0 <= k <= n <= s.len(),
        forall|j: int| k <= j < n ==> !is_white_space(#[trigger] s[j]),
        n == s.len() || is_white_space(s[n]),
    ensures
        word_end(s, k) == n,
    decreases n - k,
{
    if k < n {
        lemma_word_end_is(s, k + 1, n);
    }
}

/// A word followed by a white-space character is the first token of the line
/// it starts, and the rest of the line gives the other tokens.
pub proof fn lemma_token_then_white(w: Seq<char>, c: char, r: Seq<char>)
    requires
        w.len() > 0,
        forall|j: int| 0 <= j < w.len() ==> !is_white_space(#[trigger] w[j]),
        is_white_space(c),
    ensures
        tokens(w + seq![c] + r) == seq![w] + tokens(r),
{
    let s = w + seq![c] + r;
    let n = w.len() as int;
    assert forall|j: int| 0 <= j < n implies !is_white_space(#[trigger] s[j]) by {
        assert(s[j] == w[j]);
    }
    assert(s[n] == c);
    assert(!is_white_space(s[0]));
    assert(skip_white(s, 0) == 0);
    lemma_word_end_is(s, 0, n);
    assert(s.subrange(0, n) =~= w);
    assert(tokens_from(s, 0) == seq![w] + tokens_from(s, n));
    lemma_skip_white_bounds(s, n + 1);
    assert(skip_white(s, n) == skip_white(s, n + 1));
    let b = skip_white(s, n);
    if n + 1 <= b < s.len() {
        let e = word_end(s, b);
        assert(tokens_from(s, n) == tokens_from(s, n + 1));
    } else {
        assert(tokens_from(s, n) == tokens_from(s, n + 1));
    }
    assert(s =~= (w + seq![c]) + r);
    lemma_tokens_from_shift(w + seq![c], r, 0);
}

/// The lines of an empty text: one empty line.
pub proof fn lemma_lines_of_empty()
    ensures
        lines(Seq::<char>::empty()) == seq![Seq::<char>::empty()],
{
    let e: Seq<char> = Seq::empty();
    assert(next_newline(e, 0) == 0);
    assert(e.subrange(0, 0) =~= e);
    assert(lines(e) =~= seq![e]);
}

/// Lines joined back together, with a `'\n'` between each two.
pub open spec fn join_lines(ls: Seq<Seq<char>>) -> Seq<char>
    decreases ls.len(),
{
    if ls.len() <= 1 {
        if ls.len() == 1 {
            ls[0]
        } else {
            Seq::empty()
        }
    } else {
        ls[0] + seq!['\n'] + join_lines(ls.drop_first())
    }
}

proof fn lemma_lines_from_rejoin(s: Seq<char>, k: int)
    requires
        0 <= k <= s.len(),
    ensures
        join_lines(lines_from(s, k)) == s.subrange(k, s.len() as int),
    decreases s.len() - k,
{
    let e = next_newline(s, k);
    lemma_next_newline_bounds(s, k);
    if k <= e < s.len() {
        lemma_lines_from_rejoin(s, e + 1);
        lemma_lines_from_nonempty(s, e + 1);
        let l = lines_from(s, k);
        assert(l.drop_first() =~= lines_from(s, e + 1));
        assert(l[0] == s.subrange(k, e));
        assert(s.subrange(k, s.len() as int) =~= s.subrange(k, e) + seq!['\n'] + s.subrange(
            e + 1,
            s.len() as int,
        ));
    }
}

/// Splitting into lines loses nothing: joining the lines with `'\n'` gives
/// back the text (and, by `lemma_lines_have_no_newline`, no line holds a `'\n'`).
pub proof fn lemma_lines_rejoin(s: Seq<char>)
    ensures
        join_lines(lines(s)) == s,
{
    lemma_lines_from_rejoin(s, 0);
    assert(s.subrange(0, s.len() as int) =~= s);
}

/// An empty line has no tokens.
pub proof fn lemma_tokens_of_empty_line()
    ensures
        tokens(Seq::<char>::empty()).len() == 0,
{
}

/// Copies `s[from..to]` into a new vector.
fn copy_range(s: &Vec<char>, from: usize, to: usize) -> (r: Vec<char>)
    requires
        from <= to <= s.len(),
    ensures
        r@ == s@.subrange(from as int, to as int),
{
    let mut r: Vec<char> = Vec::new();
    let mut i: usize = from;
    while i < to
        invariant
            from <= i <= to <= s.len(),
            r@ == s@.subrange(from as int, i as int),
        decreases to - i,
    {
        r.push(s[i]);
        i = i + 1;
        assert(r@ =~= s@.subrange(from as int, i as int));
    }
    r
}

/// Splits a text into its lines at each `'\n'`. Unlike `BufRead::lines`, a
/// text that ends with `'\n'` gets a last, empty line after it, an empty text
/// gives one empty line, and a `'\r'` before a `'\n'` stays in its line (where
/// it counts as white space); none of this changes the tokens of the lines.
pub fn split_lines(s: &Vec<char>) -> (r: Vec<Vec<char>>)
    ensures
        r@.len() == lines(s@).len(),
        forall|i: int| 0 <= i < r@.len() ==> (#[trigger] r@[i])@ == lines(s@)[i],
{
    let mut r: Vec<Vec<char>> = Vec::new();
    let mut start: usize = 0;
    loop
        invariant
            start <= s.len(),
            lines(s@) == r@.map_values(|l: Vec<char>| l@) + lines_from(s@, start as int),
        decreases s.len() - start,
    {
        let ghost g = lines_from(s@, start as int);
        let mut e: usize = start;
        while e < s.len() && s[e] != '\n'
            invariant
                start <= e <= s.len(),
                next_newline(s@, start as int) == next_newline(s@, e as int),
            decreases s.len() - e,
        {
            e = e + 1;
        }
        proof {
            lemma_next_newline_bounds(s@, start as int);
        }
        let line = copy_range(s, start, e);
        let ghost before = r@.map_values(|l: Vec<char>| l@);
        r.push(line);
        assert(r@.map_values(|l: Vec<char>| l@) =~= before.push(line@));
        if e == s.len() {
            assert(g =~= seq![line@]);
            assert(lines(s@) =~= r@.map_values(|l: Vec<char>| l@));
            return r;
        }
        assert(g =~= seq![line@] + lines_from(s@, e + 1));
        assert(lines(s@) =~= r@.map_values(|l: Vec<char>| l@) + lines_from(s@, e + 1));
        start = e + 1;
    }
}

/// Splits a line into its white-space-separated tokens, as `str::split_whitespace` does.
pub fn split_tokens(t: &Vec<char>) -> (r: Vec<Vec<char>>)
    ensures
        r@.len() == tokens(t@).len(),
        forall|i: int| 0 <= i < r@.len() ==> (#[trigger] r@[i])@ == tokens(t@)[i],
{
    let mut r: Vec<Vec<char>> = Vec::new();
    let mut k: usize = 0;
    loop
        invariant
            k <= t.len(),
            tokens(t@) == r@.map_values(|w: Vec<char>| w@) + tokens_from(t@, k as int),
        decreases t.len() - k,
    {
        let ghost g = tokens_from(t@, k as int);
        let mut b: usize = k;
        while b < t.len() && white_space(t[b])
            invariant
                k <= b <= t.len(),
                skip_white(t@, k as int) == skip_white(t@, b as int),
            decreases t.len() - b,
        {
            b = b + 1;
        }
        proof {
            lemma_skip_white_bounds(t@, k as int);
        }
        if b == t.len() {
            assert(g =~= Seq::<Seq<char>>::empty());
            assert(tokens(t@) =~= r@.map_values(|w: Vec<char>| w@));
            return r;
        }
        let mut e: usize = b;
        while e < t.len() && !white_space(t[e])
            invariant
                b <= e <= t.len(),
                word_end(t@, b as int) == word_end(t@, e as int),
            decreases t.len() - e,
        {
            e = e + 1;
        }
        proof {
            lemma_word_end_bounds(t@, b as int);
        }
        let word = copy_range(t, b, e);
        let ghost before = r@.map_values(|w: Vec<char>| w@);
        r.push(word);
        assert(r@.map_values(|w: Vec<char>| w@) =~= before.push(word@));
        assert(g =~= seq![word@] + tokens_from(t@, e as int));
        assert(tokens(t@) =~= r@.map_values(|w: Vec<char>| w@) + tokens_from(t@, e as int));
        k = e;
    }
}

} // verus!
