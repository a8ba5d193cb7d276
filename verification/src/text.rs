//! Character-level helpers: conversions between `str`, `String` and
//! `Vec<char>`, whitespace trimming, and the decimal notation of integers.
use vstd::prelude::*;

verus! {

/// The Unicode `White_Space` property, which `char::is_whitespace` and
/// `str::trim` go by.
pub open spec fn is_white_space(c: char) -> bool {
    let u = c as u32;
    ||| 0x09 <= u <= 0x0d
    ||| u == 0x20
    ||| u == 0x85
    ||| u == 0xa0
    ||| u == 0x1680
    ||| 0x2000 <= u <= 0x200a
    ||| u == 0x2028
    ||| u == 0x2029
    ||| u == 0x202f
    ||| u == 0x205f
    ||| u == 0x3000
}

/// `s` without its leading white space.
pub open spec fn trim_start(s: Seq<char>) -> Seq<char>
    decreases s.len(),
{
    if s.len() > 0 && is_white_space(s[0]) {
        trim_start(s.drop_first())
    } else {
        s
    }
}

/// `s` without its trailing white space.
pub open spec fn trim_end(s: Seq<char>) -> Seq<char>
    decreases s.len(),
{
    if s.len() > 0 && is_white_space(s.last()) {
        trim_end(s.drop_last())
    } else {
        s
    }
}

/// `s` without leading and trailing white space, as `str::trim` gives it.
pub open spec fn trim(s: Seq<char>) -> Seq<char> {
    trim_end(trim_start(s))
}

/// The decimal digit character for `d < 10`.
pub open spec fn digit_char(d: nat) -> char {
    (48 + d) as char
}

/// The decimal digits of `n`, most significant first, with no leading zero.
pub open spec fn decimal(n: nat) -> Seq<char>
    decreases n,
{
    if n < 10 {
        seq![digit_char(n)]
    } else {
        decimal(n / 10).push(digit_char(n % 10))
    }
}

/// The text that `i64`'s `Display` gives for `v`: a minus sign for negative
/// values, then the decimal digits of the magnitude.
pub open spec fn int_text(v: int) -> Seq<char> {
    if v < 0 {
        seq!['-'] + decimal((-v) as nat)
    } else {
        decimal(v as nat)
    }
}

/// `String::push`: the contract states that it appends the one character
/// `c` to `s`, as its documentation says.
#[verifier::external_body]
fn push_char(s: &mut String, c: char)
    ensures
        final(s)@ == old(s)@.push(c),
{
    s.push(c);
}

/// Tests the Unicode `White_Space` property.
pub fn is_white_space_char(c: char) -> (b: bool)
    ensures
        b == is_white_space(c),
{
    let u = c as u32;
    (0x09 <= u && u <= 0x0d) || u == 0x20 || u == 0x85 || u == 0xa0 || u == 0x1680 || (0x2000
        <= u && u <= 0x200a) || u == 0x2028 || u == 0x2029 || u == 0x202f || u == 0x205f || u
        == 0x3000
}

/// The characters of `s`, in order.
pub fn chars_of(s: &str) -> (v: Vec<char>)
    ensures
        v@ == s@,
{
    let mut v: Vec<char> = Vec::new();
    for c in it: s.chars()
        invariant
            it.seq() == s@,
            v@ == it.seq().take(it.index() as int),
    {
        v.push(c);
    }
    v
}

/// A `String` made of the characters `chars`.
pub fn string_of(chars: &Vec<char>) -> (s: String)
    ensures
        s@ == chars@,
{
    let mut s = String::new();
    let mut i: usize = 0;
    while i < chars.len()
        invariant
            i <= chars.len(),
            s@ == chars@.take(i as int),
        decreases chars.len() - i,
    {
        push_char(&mut s, chars[i]);
        i = i + 1;
        assert(s@ =~= chars@.take(i as int));
    }
    assert(chars@.take(i as int) =~= chars@);
    s
}

/// `s` without leading and trailing white space.
pub fn trim_chars(s: &Vec<char>) -> (t: Vec<char>)
    ensures
        t@ == trim(s@),
{
    let n = s.len();
    let mut i: usize = 0;
    assert(s@.skip(0) =~= s@);
    while i < n && is_white_space_char(s[i])
        invariant
            i <= n == s@.len(),
            trim_start(s@) == trim_start(s@.skip(i as int)),
        decreases n - i,
    {
        assert(s@.skip(i as int).drop_first() =~= s@.skip(i + 1));
        i = i + 1;
    }
    assert(trim_start(s@) == s@.skip(i as int)) by {
        if i == n {
            assert(s@.skip(i as int) =~= Seq::<char>::empty());
        }
    }
    let mut j: usize = n;
    assert(s@.subrange(i as int, n as int) =~= s@.skip(i as int));
    while j > i && is_white_space_char(s[j - 1])
        invariant
            i <= j <= n == s@.len(),
            trim(s@) == trim_end(s@.subrange(i as int, j as int)),
        decreases j - i,
    {
        assert(s@.subrange(i as int, j as int).drop_last() =~= s@.subrange(i as int, j - 1));
        j = j - 1;
    }
    assert(trim(s@) == s@.subrange(i as int, j as int)) by {
        if j == i {
            assert(s@.subrange(i as int, j as int) =~= Seq::<char>::empty());
        }
    }
    let mut t: Vec<char> = Vec::new();
    let mut k: usize = i;
    while k < j
        invariant
            i <= k <= j <= n == s@.len(),
            t@ == s@.subrange(i as int, k as int),
        decreases j - k,
    {
        t.push(s[k]);
        k = k + 1;
        assert(t@ =~= s@.subrange(i as int, k as int));
    }
    t
}

fn digit_of(d: u64) -> (c: char)
    requires
        d < 10,
    ensures
        c == digit_char(d as nat),
{
    let b: u8 = 48u8 + (d as u8);
    b as char
}

/// The decimal text of `v`, as `i64`'s `Display` writes it.
pub fn int_to_chars(v: i64) -> (r: Vec<char>)
    ensures
        r@ == int_text(v as int),
{
    let neg = v < 0;
    let mut q: u64 = if neg {
        ((-(v + 1)) as u64) + 1
    } else {
        v as u64
    };
    let ghost m: nat = q as nat;
    assert(m == if v < 0 { -(v as int) } else { v as int });
    let mut out: Vec<char> = Vec::new();
    out.push(digit_of(q % 10));
    q = q / 10;
    assert(decimal(m) == (if q > 0 { decimal(q as nat) } else { Seq::<char>::empty() }) + out@);
    while q > 0
        invariant
            decimal(m) == (if q > 0 { decimal(q as nat) } else { Seq::<char>::empty() }) + out@,
        decreases q,
    {
        let ghost old_out = out@;
        let ghost old_q = q;
        out.insert(0, digit_of(q % 10));
        q = q / 10;
        assert(decimal(old_q as nat) == (if q > 0 { decimal(q as nat) } else {
            Seq::<char>::empty()
        }) + seq![digit_char((old_q % 10) as nat)]);
        assert(out@ =~= seq![digit_char((old_q % 10) as nat)] + old_out);
        assert(decimal(m) =~= (if q > 0 { decimal(q as nat) } else { Seq::<char>::empty() })
            + out@);
    }
    assert(decimal(m) =~= out@);
    if neg {
        out.insert(0, '-');
        assert(out@ =~= seq!['-'] + decimal(m));
    }
    out
}

} // verus!
