//! Which texts are numbers: the grammar of `i64`'s and `f64`'s `FromStr`.
use vstd::prelude::*;

verus! {

pub open spec fn is_digit(c: char) -> bool {
    '0' <= c <= '9'
}

pub open spec fn all_digits(s: Seq<char>) -> bool {
    forall|i: int| 0 <= i < s.len() ==> #[trigger] is_digit(s[i])
}

/// The value of a string of decimal digits.
pub open spec fn digits_value(s: Seq<char>) -> nat
    decreases s.len(),
{
    if s.len() == 0 {
        0
    } else {
        digits_value(s.drop_last()) * 10 + ((s.last() as nat) - 48) as nat
    }
}

pub open spec fn has_sign(s: Seq<char>) -> bool {
    s.len() > 0 && (s[0] == '+' || s[0] == '-')
}

/// `s` without its leading sign, if it has one.
pub open spec fn unsigned_part(s: Seq<char>) -> Seq<char> {
    if has_sign(s) {
        s.drop_first()
    } else {
        s
    }
}

/// What `i64::from_str` gives for `s`: an optional `+` or `-` followed by at
/// least one decimal digit and nothing else, whose value fits in an `i64`.
pub open spec fn int_literal_value(s: Seq<char>) -> Option<i64> {
    let body = unsigned_part(s);
    let negative = s.len() > 0 && s[0] == '-';
    let v: int = if negative {
        -(digits_value(body) as int)
    } else {
        digits_value(body) as int
    };
    if body.len() == 0 || !all_digits(body) {
        None
    } else if i64::MIN <= v <= i64::MAX {
        Some(v as i64)
    } else {
        None
    }
}

/// ASCII letters in lower case, every other character unchanged.
pub open spec fn ascii_lower(c: char) -> char {
    if 'A' <= c <= 'Z' {
        ((c as u32) + 32) as char
    } else {
        c
    }
}

pub open spec fn lower(s: Seq<char>) -> Seq<char> {
    s.map_values(|c: char| ascii_lower(c))
}

/// `inf`, `infinity` or `nan`, in any case.
pub open spec fn is_special_float(s: Seq<char>) -> bool {
    ||| lower(s) == seq!['i', 'n', 'f']
    ||| lower(s) == seq!['i', 'n', 'f', 'i', 'n', 'i', 't', 'y']
    ||| lower(s) == seq!['n', 'a', 'n']
}

/// `Digit+ | Digit+ '.' Digit* | Digit* '.' Digit+`: digits and at most one
/// point, with at least one digit.
pub open spec fn is_mantissa(m: Seq<char>) -> bool {
    &&& forall|i: int| 0 <= i < m.len() ==> is_digit(#[trigger] m[i]) || m[i] == '.'
    &&& forall|i: int, j: int|
        0 <= i < m.len() && 0 <= j < m.len() && #[trigger] m[i] == '.' && #[trigger] m[j] == '.'
            ==> i == j
    &&& exists|i: int| 0 <= i < m.len() && is_digit(#[trigger] m[i])
}

/// `Sign? Digit+`
pub open spec fn is_exponent(x: Seq<char>) -> bool {
    unsigned_part(x).len() > 0 && all_digits(unsigned_part(x))
}

/// `Mantissa ('e' Exponent)?`, the `e` in either case.
pub open spec fn is_decimal_number(s: Seq<char>) -> bool {
    ||| is_mantissa(s)
    ||| exists|p: int|
        0 <= p < s.len() && ascii_lower(#[trigger] s[p]) == 'e' && is_mantissa(s.take(p))
            && is_exponent(s.skip(p + 1))
}

/// The grammar that `f64::from_str` documents as accepted:
/// `Sign? ('inf' | 'infinity' | 'nan' | Number)`, letters in any case.
pub open spec fn is_float_literal(s: Seq<char>) -> bool {
    is_special_float(unsigned_part(s)) || is_decimal_number(unsigned_part(s))
}

proof fn lemma_digits_value_step(s: Seq<char>, k: int)
    requires
        0 <= k < s.len(),
    ensures
        digits_value(s.take(k + 1)) == digits_value(s.take(k)) * 10 + ((s[k] as nat) - 48) as nat,
{
    assert(s.take(k + 1).drop_last() =~= s.take(k));
}

/// The value `i64::from_str` gives `s`, or `None` where it fails.
pub fn parse_int(s: &Vec<char>) -> (r: Option<i64>)
    ensures
        r == int_literal_value(s@),
{
    let n = s.len();
    let signed = n > 0 && (s[0] == '+' || s[0] == '-');
    let negative = n > 0 && s[0] == '-';
    let start: usize = if signed {
        1
    } else {
        0
    };
    let ghost body = unsigned_part(s@);
    assert(body =~= s@.skip(start as int));
    if start == n {
        return None;
    }
    let limit: u64 = 0x8000_0000_0000_0000;
    let mut acc: u64 = 0;
    let mut big = false;
    let mut k: usize = start;
    assert(body.take(0) =~= Seq::<char>::empty());
    while k < n
        invariant
            start <= k <= n == s@.len(),
            body =~= s@.skip(start as int),
            body == unsigned_part(s@),
            all_digits(body.take(k - start)),
            !big ==> acc as nat == digits_value(body.take(k - start)) && acc <= limit,
            big ==> digits_value(body.take(k - start)) > limit,
            limit == 0x8000_0000_0000_0000u64,
        decreases n - k,
    {
        let c = s[k];
        if !('0' <= c && c <= '9') {
            assert(!is_digit(body[k - start]));
            assert(!all_digits(body));
            return None;
        }
        let d: u64 = (c as u32 - 48) as u64;
        proof {
            lemma_digits_value_step(body, k - start);
            assert(body.take(k - start + 1) =~= body.take(k - start).push(c));
        }
        if !big {
            if acc > (limit - d) / 10 {
                big = true;
            } else {
                acc = acc * 10 + d;
            }
        }
        k = k + 1;
        assert(body.take(k - start) =~= body.take(k - start - 1).push(c));
    }
    assert(body.take(n - start) =~= body);
    if big {
        return None;
    }
    if negative {
        if acc == limit {
            Some(i64::MIN)
        } else {
            Some(-(acc as i64))
        }
    } else {
        if acc < limit {
            Some(acc as i64)
        } else {
            None
        }
    }
}

fn lower_char(c: char) -> (r: char)
    ensures
        r == ascii_lower(c),
{
    if 'A' <= c && c <= 'Z' {
        let u: u32 = c as u32 + 32;
        let b: u8 = u as u8;
        b as char
    } else {
        c
    }
}

/// Whether `s[from..to]`, letters taken in lower case, is `word`.
fn lower_equals(s: &Vec<char>, from: usize, to: usize, word: &str) -> (b: bool)
    requires
        from <= to <= s@.len(),
    ensures
        b == (lower(s@.subrange(from as int, to as int)) == word@),
{
    let w = crate::text::chars_of(word);
    if to - from != w.len() {
        proof {
            if lower(s@.subrange(from as int, to as int)) == word@ {
                assert(lower(s@.subrange(from as int, to as int)).len() == w@.len());
            }
        }
        return false;
    }
    let mut i: usize = 0;
    while i < w.len()
        invariant
            from <= to <= s@.len(),
            to - from == w@.len(),
            w@ == word@,
            i <= w@.len(),
            forall|j: int| 0 <= j < i ==> ascii_lower(s@[from + j]) == w@[j],
        decreases w@.len() - i,
    {
        if lower_char(s[from + i]) != w[i] {
            assert(lower(s@.subrange(from as int, to as int))[i as int] != word@[i as int]);
            return false;
        }
        i = i + 1;
    }
    assert(lower(s@.subrange(from as int, to as int)) =~= word@);
    true
}

/// Whether `s[from..to]` is a mantissa.
fn mantissa_at(s: &Vec<char>, from: usize, to: usize) -> (b: bool)
    requires
        from <= to <= s@.len(),
    ensures
        b == is_mantissa(s@.subrange(from as int, to as int)),
{
    let ghost m = s@.subrange(from as int, to as int);
    let mut i: usize = from;
    let mut dot: Option<usize> = None;
    let mut digit = false;
    while i < to
        invariant
            from <= i <= to <= s@.len(),
            m == s@.subrange(from as int, to as int),
            forall|j: int| 0 <= j < i - from ==> is_digit(#[trigger] m[j]) || m[j] == '.',
            match dot {
                Some(p) => from <= p < i && m[p - from] == '.' && forall|j: int|
                    0 <= j < i - from && #[trigger] m[j] == '.' ==> j == p - from,
                None => forall|j: int| 0 <= j < i - from ==> #[trigger] m[j] != '.',
            },
            digit <==> exists|j: int| 0 <= j < i - from && is_digit(#[trigger] m[j]),
        decreases to - i,
    {
        let c = s[i];
        if c == '.' {
            if dot.is_some() {
                let p = dot.unwrap();
                assert(m[p - from] == '.' && m[i - from] == '.');
                return false;
            }
            dot = Some(i);
        } else if '0' <= c && c <= '9' {
            assert(is_digit(m[i - from]));
            digit = true;
        } else {
            assert(!(is_digit(m[i - from]) || m[i - from] == '.'));
            return false;
        }
        i = i + 1;
    }
    digit
}

/// Whether `s[from..]` is an exponent.
fn exponent_at(s: &Vec<char>, from: usize) -> (b: bool)
    requires
        from <= s@.len(),
    ensures
        b == is_exponent(s@.skip(from as int)),
{
    let ghost x = s@.skip(from as int);
    let n = s.len();
    let start = if from < n && (s[from] == '+' || s[from] == '-') {
        from + 1
    } else {
        from
    };
    assert(unsigned_part(x) =~= s@.skip(start as int));
    if start == n {
        return false;
    }
    let mut i = start;
    while i < n
        invariant
            start <= i <= n == s@.len(),
            x == s@.skip(from as int),
            unsigned_part(x) =~= s@.skip(start as int),
            forall|j: int| start <= j < i ==> #[trigger] is_digit(s@[j]),
        decreases n - i,
    {
        let c = s[i];
        if !('0' <= c && c <= '9') {
            assert(unsigned_part(x)[i - start] == c);
            assert(!is_digit(unsigned_part(x)[i - start]));
            return false;
        }
        i = i + 1;
    }
    assert forall|j: int| 0 <= j < unsigned_part(x).len() implies #[trigger] is_digit(
        unsigned_part(x)[j],
    ) by {
        assert(unsigned_part(x)[j] == s@[start + j]);
    }
    true
}

proof fn lemma_special_words()
    ensures
        "inf"@ == seq!['i', 'n', 'f'],
        "infinity"@ == seq!['i', 'n', 'f', 'i', 'n', 'i', 't', 'y'],
        "nan"@ == seq!['n', 'a', 'n'],
{
    reveal_strlit("inf");
    reveal_strlit("infinity");
    reveal_strlit("nan");
    assert("inf"@ =~= seq!['i', 'n', 'f']);
    assert("infinity"@ =~= seq!['i', 'n', 'f', 'i', 'n', 'i', 't', 'y']);
    assert("nan"@ =~= seq!['n', 'a', 'n']);
}

/// Whether `f64::from_str` accepts `s`, by the grammar it documents.
pub fn is_float_text(s: &Vec<char>) -> (b: bool)
    ensures
        b == is_float_literal(s@),
{
    let n = s.len();
    let start: usize = if n > 0 && (s[0] == '+' || s[0] == '-') {
        1
    } else {
        0
    };
    let ghost body = unsigned_part(s@);
    assert(body =~= s@.subrange(start as int, n as int));
    if lower_equals(s, start, n, "inf") || lower_equals(s, start, n, "infinity") || lower_equals(
        s,
        start,
        n,
        "nan",
    ) {
        proof {
            lemma_special_words();
        }
        return true;
    }
    proof {
        lemma_special_words();
    }
    assert(!is_special_float(body));
    if mantissa_at(s, start, n) {
        return true;
    }
    // The exponent marker, if any, is the first `e`: a mantissa has none.
    let mut p: usize = start;
    while p < n && lower_char(s[p]) != 'e'
        invariant
            start <= p <= n == s@.len(),
            forall|j: int| start <= j < p ==> ascii_lower(#[trigger] s@[j]) != 'e',
        decreases n - p,
    {
        p = p + 1;
    }
    if p == n {
        assert forall|q: int|
            0 <= q < body.len() && ascii_lower(#[trigger] body[q]) == 'e' implies false by {
            assert(body[q] == s@[start + q]);
        }
        return false;
    }
    let ok = mantissa_at(s, start, p) && exponent_at(s, p + 1);
    let ghost q0 = p - start;
    assert(body.take(q0) =~= s@.subrange(start as int, p as int));
    assert(body.skip(q0 + 1) =~= s@.skip(p + 1));
    assert(body[q0] == s@[p as int]);
    proof {
        if !ok {
            assert forall|q: int|
                0 <= q < body.len() && ascii_lower(#[trigger] body[q]) == 'e' && is_mantissa(
                    body.take(q),
                ) implies !is_exponent(body.skip(q + 1)) by {
                assert(body[q] == s@[start + q]);
                if q > q0 {
                    // `body.take(q)` holds the `e` at `q0`.
                    let t = body.take(q);
                    assert(t[q0] == body[q0]);
                    assert(!(is_digit(t[q0]) || t[q0] == '.'));
                } else if q < q0 {
                    assert(ascii_lower(s@[start + q]) != 'e');
                }
            }
        }
    }
    ok
}

} // verus!
