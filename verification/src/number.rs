//! Recognising the number tokens of the OBJ format.
//!
//! Vertex indices are read as `usize` is read from a string: an optional `+`
//! and one or more ASCII digits, with a value that fits in `usize`.
//! Vertex coordinates are checked against the grammar that `f64`'s `FromStr`
//! documents (compared without regard to ASCII case):
//!
//! ```text
//! Float  ::= Sign? ( 'inf' | 'infinity' | 'nan' | Number )
//! Number ::= ( Digit+ | Digit+ '.' Digit* | Digit* '.' Digit+ ) Exp?
//! Exp    ::= 'e' Sign? Digit+
//! Sign   ::= [+-]
//! Digit  ::= [0-9]
//! ```
use vstd::prelude::*;

verus! {

pub open spec fn is_digit(c: char) -> bool {
    '0' <= c <= '9'
}

pub open spec fn digit_value(c: char) -> nat {
    (c as u32 - '0' as u32) as nat
}

pub open spec fn all_digits(s: Seq<char>) -> bool {
    forall|i: int| 0 <= i < s.len() ==> is_digit(#[trigger] s[i])
}

/// The value of a string of decimal digits.
pub open spec fn digits_value(s: Seq<char>) -> nat
    decreases s.len(),
{
    if s.len() == 0 {
        0
    } else {
        digits_value(s.drop_last()) * 10 + digit_value(s.last())
    }
}

/// The digits of an unsigned literal: what follows a leading `+`, if there is one.
pub open spec fn unsigned_digits(s: Seq<char>) -> Seq<char> {
    if s.len() > 0 && s[0] == '+' {
        s.drop_first()
    } else {
        s
    }
}

/// The value that an unsigned integer literal denotes, or `None` when the
/// token is not such a literal (whatever the size of the value).
pub open spec fn unsigned_literal_value(s: Seq<char>) -> Option<nat> {
    let d = unsigned_digits(s);
    if d.len() > 0 && all_digits(d) {
        Some(digits_value(d))
    } else {
        None
    }
}

/// What `usize::from_str` returns on `s`.
pub open spec fn usize_literal(s: Seq<char>) -> Option<usize> {
    match unsigned_literal_value(s) {
        Some(v) => if v <= usize::MAX {
            Some(v as usize)
        } else {
            None
        },
        None => None,
    }
}

pub proof fn lemma_digits_value_prefix_grows(s: Seq<char>, i: int, j: int)
    requires
        0 <= i <= j <= s.len(),
        all_digits(s),
    ensures
        digits_value(s.take(i)) <= digits_value(s.take(j)),
    decreases j - i,
{
    if i < j {
        lemma_digits_value_prefix_grows(s, i, j - 1);
        assert(s.take(j).drop_last() =~= s.take(j - 1));
    }
}

/// Reads a vertex index the way `usize::from_str` does.
pub fn parse_usize(s: &Vec<char>) -> (r: Option<usize>)
    ensures
        r == usize_literal(s@),
{
    let start: usize = if s.len() > 0 && s[0] == '+' {
        1
    } else {
        0
    };
    let ghost d = unsigned_digits(s@);
    assert(d =~= s@.subrange(start as int, s@.len() as int));
    if start == s.len() {
        return None;
    }
    let mut value: usize = 0;
    let mut overflow = false;
    let mut i: usize = start;
    while i < s.len()
        invariant
            start <= i <= s.len(),
            start < s.len(),
            d == s@.subrange(start as int, s@.len() as int),
            d == unsigned_digits(s@),
            all_digits(d.take(i - start)),
            !overflow ==> value as nat == digits_value(d.take(i - start)),
            overflow ==> digits_value(d.take(i - start)) > usize::MAX,
        decreases s.len() - i,
    {
        let c = s[i];
        if !('0' <= c && c <= '9') {
            assert(d[i - start] == c);
            assert(!is_digit(d[i - start]));
            assert(!all_digits(d));
            return None;
        }
        let ghost prev = d.take(i - start);
        let ghost next = d.take(i + 1 - start);
        assert(next.drop_last() =~= prev);
        assert(next.last() == c);
        assert(all_digits(next));
        if !overflow {
            let digit: u32 = c as u32 - '0' as u32;
            match value.checked_mul(10) {
                Some(t) => match t.checked_add(digit as usize) {
                    Some(v) => {
                        value = v;
                    },
                    None => {
                        overflow = true;
                    },
                },
                None => {
                    overflow = true;
                    assert(digits_value(next) >= value * 10) by (nonlinear_arith)
                        requires
                            digits_value(next) == value * 10 + digit_value(c),
                    ;
                },
            }
        } else {
            proof {
                lemma_digits_value_prefix_grows(next, prev.len() as int, next.len() as int);
                assert(next.take(prev.len() as int) =~= prev);
                assert(next.take(next.len() as int) =~= next);
            }
        }
        i = i + 1;
    }
    assert(d.take(i - start) =~= d);
    if overflow {
        None
    } else {
        Some(value)
    }
}

pub open spec fn is_sign(c: char) -> bool {
    c == '+' || c == '-'
}

pub open spec fn is_exp_marker(c: char) -> bool {
    c == 'e' || c == 'E'
}

/// `c` is the lower-case ASCII letter `w` in either case.
pub open spec fn same_letter(c: char, w: char) -> bool {
    c == w || (c as u32) + 32 == (w as u32)
}

/// `s` spells the lower-case word `w`, without regard to ASCII case.
pub open spec fn spells(s: Seq<char>, w: Seq<char>) -> bool {
    s.len() == w.len() && forall|i: int| 0 <= i < s.len() ==> same_letter(#[trigger] s[i], w[i])
}

pub open spec fn is_special_float(b: Seq<char>) -> bool {
    ||| spells(b, seq!['i', 'n', 'f'])
    ||| spells(b, seq!['i', 'n', 'f', 'i', 'n', 'i', 't', 'y'])
    ||| spells(b, seq!['n', 'a', 'n'])
}

/// `Digit+ | Digit+ '.' Digit* | Digit* '.' Digit+`: digits and at most one
/// point, with at least one digit.
pub open spec fn is_mantissa(m: Seq<char>) -> bool {
    &&& forall|i: int| 0 <= i < m.len() ==> is_digit(#[trigger] m[i]) || m[i] == '.'
    &&& forall|i: int, j: int| 0 <= i < j < m.len() && m[i] == '.' ==> m[j] != '.'
    &&& exists|i: int| 0 <= i < m.len() && is_digit(#[trigger] m[i])
}

/// `Exp?`: nothing, or `e`, an optional sign and one or more digits.
pub open spec fn is_exponent_part(x: Seq<char>) -> bool {
    x.len() == 0 || (is_exp_marker(x[0]) && {
        let y = x.drop_first();
        let d = if y.len() > 0 && is_sign(y[0]) {
            y.drop_first()
        } else {
            y
        };
        d.len() > 0 && all_digits(d)
    })
}

/// The position of the first exponent marker at or after `k`, or `s.len()`.
pub open spec fn exp_marker_at(s: Seq<char>, k: int) -> int
    decreases s.len() - k,
{
    if k >= s.len() {
        s.len() as int
    } else if is_exp_marker(s[k]) {
        k
    } else {
        exp_marker_at(s, k + 1)
    }
}

pub open spec fn is_number(b: Seq<char>) -> bool {
    let k = exp_marker_at(b, 0);
    is_mantissa(b.take(k)) && is_exponent_part(b.skip(k))
}

/// Whether `f64::from_str` accepts `s`.
pub open spec fn is_float_literal(s: Seq<char>) -> bool {
    let b = if s.len() > 0 && is_sign(s[0]) {
        s.drop_first()
    } else {
        s
    };
    is_special_float(b) || is_number(b)
}

/// Whether `s[from..to]` is made of ASCII digits only.
fn digits_only(s: &Vec<char>, from: usize, to: usize) -> (b: bool)
    requires
        from <= to <= s.len(),
    ensures
        b == all_digits(s@.subrange(from as int, to as int)),
{
    let ghost t = s@.subrange(from as int, to as int);
    let mut i: usize = from;
    while i < to
        invariant
            from <= i <= to <= s.len(),
            t == s@.subrange(from as int, to as int),
            forall|j: int| from <= j < i ==> is_digit(#[trigger] s@[j]),
        decreases to - i,
    {
        if !('0' <= s[i] && s[i] <= '9') {
            assert(!is_digit(t[i - from]));
            return false;
        }
        i = i + 1;
    }
    assert forall|j: int| 0 <= j < t.len() implies is_digit(#[trigger] t[j]) by {
        assert(t[j] == s@[from + j]);
    }
    true
}

/// Whether `c` is the lower-case ASCII letter `w` in either case.
fn letter_matches(c: char, w: char) -> (b: bool)
    requires
        'a' <= w <= 'z',
    ensures
        b == same_letter(c, w),
{
    let cu: u32 = c as u32;
    let wu: u32 = w as u32;
    c == w || cu + 32 == wu
}

/// Whether `s[from..]` spells the lower-case word `w`.
fn spells_word(s: &Vec<char>, from: usize, w: &[char]) -> (b: bool)
    requires
        from <= s.len(),
        forall|i: int| 0 <= i < w@.len() ==> 'a' <= #[trigger] w@[i] <= 'z',
    ensures
        b == spells(s@.subrange(from as int, s@.len() as int), w@),
{
    let ghost t = s@.subrange(from as int, s@.len() as int);
    if s.len() - from != w.len() {
        return false;
    }
    let mut i: usize = 0;
    while i < w.len()
        invariant
            i <= w@.len(),
            t.len() == w@.len(),
            t == s@.subrange(from as int, s@.len() as int),
            from + w@.len() == s.len(),
            forall|i: int| 0 <= i < w@.len() ==> 'a' <= #[trigger] w@[i] <= 'z',
            forall|j: int| 0 <= j < i ==> same_letter(#[trigger] t[j], w@[j]),
        decreases w.len() - i,
    {
        assert(t[i as int] == s@[from + i]);
        if !letter_matches(s[from + i], w[i]) {
            return false;
        }
        i = i + 1;
    }
    true
}

/// Whether `s[from..to]` is a mantissa: digits and at most one point, at least one digit.
fn mantissa_ok(s: &Vec<char>, from: usize, to: usize) -> (b: bool)
    requires
        from <= to <= s.len(),
    ensures
        b == is_mantissa(s@.subrange(from as int, to as int)),
{
    let ghost m = s@.subrange(from as int, to as int);
    let mut seen_point = false;
    let mut seen_digit = false;
    let mut point_at: usize = 0;
    let mut digit_at: usize = 0;
    let mut i: usize = from;
    while i < to
        invariant
            from <= i <= to <= s.len(),
            m == s@.subrange(from as int, to as int),
            forall|j: int| 0 <= j < i - from ==> is_digit(#[trigger] m[j]) || m[j] == '.',
            seen_point <==> exists|j: int| 0 <= j < i - from && #[trigger] m[j] == '.',
            seen_point ==> from <= point_at < i && m[point_at - from] == '.',
            forall|j: int, k: int| 0 <= j < k < i - from && m[j] == '.' ==> m[k] != '.',
            seen_digit ==> from <= digit_at < i && is_digit(m[digit_at - from]),
            !seen_digit ==> forall|j: int| 0 <= j < i - from ==> !is_digit(#[trigger] m[j]),
        decreases to - i,
    {
        let c = s[i];
        assert(m[i - from] == c);
        if '0' <= c && c <= '9' {
            seen_digit = true;
            digit_at = i;
        } else if c == '.' {
            if seen_point {
                assert(m[point_at - from] == '.');
                return false;
            }
            seen_point = true;
            point_at = i;
        } else {
            return false;
        }
        i = i + 1;
    }
    if seen_digit {
        assert(is_digit(m[digit_at - from]));
    }
    seen_digit
}

/// Whether `s[from..]` is an exponent part (possibly empty).
fn exponent_ok(s: &Vec<char>, from: usize) -> (b: bool)
    requires
        from <= s.len(),
    ensures
        b == is_exponent_part(s@.subrange(from as int, s@.len() as int)),
{
    let ghost x = s@.subrange(from as int, s@.len() as int);
    if from == s.len() {
        return true;
    }
    if !(s[from] == 'e' || s[from] == 'E') {
        return false;
    }
    let ghost y = x.drop_first();
    assert(y =~= s@.subrange(from + 1, s@.len() as int));
    let mut d_from: usize = from + 1;
    if d_from < s.len() && (s[d_from] == '+' || s[d_from] == '-') {
        d_from = d_from + 1;
        assert(y.drop_first() =~= s@.subrange(d_from as int, s@.len() as int));
    }
    if d_from == s.len() {
        return false;
    }
    digits_only(s, d_from, s.len())
}

/// Whether `f64::from_str` would accept the token `s`.
pub fn is_float_token(s: &Vec<char>) -> (b: bool)
    ensures
        b == is_float_literal(s@),
{
    let from: usize = if s.len() > 0 && (s[0] == '+' || s[0] == '-') {
        1
    } else {
        0
    };
    let ghost body = s@.subrange(from as int, s@.len() as int);
    assert(body =~= (if s@.len() > 0 && is_sign(s@[0]) {
        s@.drop_first()
    } else {
        s@
    }));
    let inf: [char; 3] = ['i', 'n', 'f'];
    let infinity: [char; 8] = ['i', 'n', 'f', 'i', 'n', 'i', 't', 'y'];
    let nan: [char; 3] = ['n', 'a', 'n'];
    assert(inf@ =~= seq!['i', 'n', 'f']);
    assert(infinity@ =~= seq!['i', 'n', 'f', 'i', 'n', 'i', 't', 'y']);
    assert(nan@ =~= seq!['n', 'a', 'n']);
    if spells_word(s, from, inf.as_slice()) || spells_word(s, from, infinity.as_slice())
        || spells_word(s, from, nan.as_slice()) {
        return true;
    }
    let mut k: usize = from;
    while k < s.len() && !(s[k] == 'e' || s[k] == 'E')
        invariant
            from <= k <= s.len(),
            body == s@.subrange(from as int, s@.len() as int),
            exp_marker_at(body, 0) == exp_marker_at(body, k - from),
        decreases s.len() - k,
    {
        assert(body[k - from] == s@[k as int]);
        k = k + 1;
    }
    proof {
        if k < s.len() {
            assert(body[k - from] == s@[k as int]);
        }
        assert(exp_marker_at(body, 0) == k - from);
        assert(body.take(k - from) =~= s@.subrange(from as int, k as int));
        assert(body.skip(k - from) =~= s@.subrange(k as int, s@.len() as int));
    }
    mantissa_ok(s, from, k) && exponent_ok(s, k)
}

proof fn lemma_exp_marker_after(b: Seq<char>, n: int, k: int)
    requires
        0 <= k <= n <= b.len(),
        forall|i: int| 0 <= i < n ==> !is_exp_marker(#[trigger] b[i]),
        n == b.len() || is_exp_marker(b[n]),
    ensures
        exp_marker_at(b, k) == n,
    decreases n - k,
{
    if k < n {
        lemma_exp_marker_after(b, n, k + 1);
    }
}

/// A decimal number with an optional sign is a floating-point token, and so
/// is the same number followed by an exponent: `e` or `E`, an optional sign,
/// and any number (one or more) of digits.
pub proof fn lemma_decimal_with_exponent(sign: Seq<char>, m: Seq<char>, marker: Seq<char>, d: Seq<char>)
    requires
        sign == Seq::<char>::empty() || sign == seq!['+'] || sign == seq!['-'],
        forall|i: int| 0 <= i < m.len() ==> ('0' <= #[trigger] m[i] <= '9' || m[i] == '.'),
        forall|i: int, j: int| 0 <= i < j < m.len() && m[i] == '.' ==> m[j] != '.',
        exists|i: int| 0 <= i < m.len() && '0' <= #[trigger] m[i] <= '9',
        marker == seq!['e'] || marker == seq!['E'] || marker == seq!['e', '+'] || marker == seq![
            'e',
            '-',
        ] || marker == seq!['E', '+'] || marker == seq!['E', '-'],
        d.len() > 0,
        forall|i: int| 0 <= i < d.len() ==> '0' <= #[trigger] d[i] <= '9',
    ensures
        is_float_literal(sign + m),
        is_float_literal(sign + m + marker + d),
{
    let i0 = choose|i: int| 0 <= i < m.len() && '0' <= #[trigger] m[i] <= '9';
    assert(is_digit(m[i0]));
    assert(is_mantissa(m));
    // The number without exponent.
    let s1 = sign + m;
    if sign.len() == 0 {
        assert(s1 =~= m);
        assert(!is_sign(m[0]));
    } else {
        assert(s1.drop_first() =~= m);
    }
    lemma_exp_marker_after(m, m.len() as int, 0);
    assert(m.take(m.len() as int) =~= m);
    assert(m.skip(m.len() as int) =~= Seq::<char>::empty());
    assert(is_number(m));
    // The number with exponent.
    let body = m + marker + d;
    let s2 = sign + m + marker + d;
    if sign.len() == 0 {
        assert(s2 =~= body);
        assert(body[0] == m[0]);
        assert(!is_sign(body[0]));
    } else {
        assert(s2.drop_first() =~= body);
    }
    assert forall|i: int| 0 <= i < m.len() implies !is_exp_marker(#[trigger] body[i]) by {
        assert(body[i] == m[i]);
    }
    assert(body[m.len() as int] == marker[0]);
    lemma_exp_marker_after(body, m.len() as int, 0);
    assert(body.take(m.len() as int) =~= m);
    let x = body.skip(m.len() as int);
    assert(x =~= marker + d);
    let y = x.drop_first();
    if marker.len() == 2 {
        assert(y =~= seq![marker[1]] + d);
        assert(y.drop_first() =~= d);
    } else {
        assert(y =~= d);
        assert(!is_sign(d[0]));
    }
    assert(all_digits(d));
    assert(is_exponent_part(x));
    assert(is_number(body));
}

/// A number with two decimal points before any exponent is not a
/// floating-point token, nor is an empty token or a lone sign.
pub proof fn lemma_rejected_tokens(s: Seq<char>, i: int, j: int)
    requires
        0 <= i < j < s.len(),
        s[i] == '.',
        s[j] == '.',
        forall|k: int| 0 <= k < j ==> !is_exp_marker(#[trigger] s[k]),
    ensures
        !is_float_literal(s),
        !is_float_literal(Seq::<char>::empty()),
        !is_float_literal(seq!['+']),
        !is_float_literal(seq!['-']),
{
    let b = if s.len() > 0 && is_sign(s[0]) {
        s.drop_first()
    } else {
        s
    };
    let off: int = if s.len() > 0 && is_sign(s[0]) {
        1
    } else {
        0
    };
    assert(!is_sign(s[i]));
    assert(off <= i);
    assert(b[i - off] == '.' && b[j - off] == '.');
    if spells(b, seq!['i', 'n', 'f']) {
        assert(same_letter(b[i - off], seq!['i', 'n', 'f'][i - off]));
    }
    if spells(b, seq!['i', 'n', 'f', 'i', 'n', 'i', 't', 'y']) {
        assert(same_letter(b[i - off], seq!['i', 'n', 'f', 'i', 'n', 'i', 't', 'y'][i - off]));
    }
    if spells(b, seq!['n', 'a', 'n']) {
        assert(same_letter(b[i - off], seq!['n', 'a', 'n'][i - off]));
    }
    let k = exp_marker_at(b, 0);
    assert forall|x: int| 0 <= x <= j - off implies !is_exp_marker(#[trigger] b[x]) by {
        assert(b[x] == s[x + off]);
    }
    lemma_exp_marker_not_before(b, j - off, 0);
    assert(k > j - off);
    let m = b.take(k);
    assert(m[i - off] == '.' && m[j - off] == '.');
    assert(!is_mantissa(m));
    let e: Seq<char> = Seq::empty();
    assert(exp_marker_at(e, 0) == 0);
    assert(!is_mantissa(e.take(0)));
    let p = seq!['+'];
    assert(p.drop_first() =~= e);
    let q = seq!['-'];
    assert(q.drop_first() =~= e);
}

proof fn lemma_exp_marker_not_before(b: Seq<char>, n: int, k: int)
    requires
        0 <= k <= b.len(),
        n < b.len(),
        forall|i: int| 0 <= i <= n ==> !is_exp_marker(#[trigger] b[i]),
    ensures
        k <= exp_marker_at(b, k) <= b.len(),
        k <= n ==> n < exp_marker_at(b, k),
    decreases b.len() - k,
{
    if k < b.len() && !is_exp_marker(b[k]) {
        lemma_exp_marker_not_before(b, n, k + 1);
    }
}

} // verus!
