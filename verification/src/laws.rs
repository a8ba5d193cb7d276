//! Properties of the interpreter as a whole.
use vstd::prelude::*;
use crate::eval::{evaluation, evaluation_aborts, token_value};
use crate::number::{
    all_digits, ascii_lower, digits_value, has_sign, int_literal_value, is_decimal_number, is_digit,
    is_exponent, is_float_literal, is_mantissa, is_special_float, lower, unsigned_part,
};
use crate::object::{add_values, FloatTerm, FloatValue, Shown, Value};
use crate::session::{
    first_line, line_scan, line_step, lines_of, without_cr, LineState, batch_aborts, batch_output, batch_writes, concat_all, environment_after,
};
use crate::text::{decimal, digit_char, int_text, is_white_space, trim, trim_end, trim_start};
use crate::token::{
    TokenModel, is_lone_quote, lexable, scan, scan_step, token_of, tokens_of, words, ScanState, TokenKind,
};

verus! {

/// The word splitter run from the state `st` over `s`.
pub open spec fn scan_from(st: ScanState, s: Seq<char>) -> ScanState
    decreases s.len(),
{
    if s.len() == 0 {
        st
    } else {
        scan_step(scan_from(st, s.drop_last()), s.last())
    }
}

pub open spec fn initial_scan() -> ScanState {
    ScanState { words: Seq::empty(), current: Seq::empty(), quoted: false }
}

/// `w` is one word on its own: splitting it gives `w` and leaves no
/// quotation open.
pub open spec fn is_word(w: Seq<char>) -> bool {
    &&& w.len() > 0
    &&& scan(w).words.len() == 0
    &&& scan(w).current == w
    &&& !scan(w).quoted
}

proof fn lemma_scan_is_scan_from(s: Seq<char>)
    ensures
        scan(s) == scan_from(initial_scan(), s),
    decreases s.len(),
{
    if s.len() > 0 {
        lemma_scan_is_scan_from(s.drop_last());
    }
}

proof fn lemma_scan_from_concat(st: ScanState, a: Seq<char>, b: Seq<char>)
    ensures
        scan_from(st, a + b) == scan_from(scan_from(st, a), b),
    decreases b.len(),
{
    if b.len() == 0 {
        assert(a + b =~= a);
    } else {
        lemma_scan_from_concat(st, a, b.drop_last());
        assert((a + b).drop_last() =~= a + b.drop_last());
        assert((a + b).last() == b.last());
    }
}

/// From a state between words, the splitter adds to the words what it
/// finds in `s` alone.
proof fn lemma_scan_from_clean(st: ScanState, s: Seq<char>)
    requires
        st.current.len() == 0,
        !st.quoted,
    ensures
        scan_from(st, s) == (ScanState {
            words: st.words + scan(s).words,
            current: scan(s).current,
            quoted: scan(s).quoted,
        }),
    decreases s.len(),
{
    if s.len() == 0 {
        assert(st.words + Seq::<Seq<char>>::empty() =~= st.words);
        assert(scan_from(st, s) =~= (ScanState {
            words: st.words + scan(s).words,
            current: scan(s).current,
            quoted: scan(s).quoted,
        }));
    } else {
        lemma_scan_from_clean(st, s.drop_last());
        let inner = scan(s.drop_last());
        if s.last() == ' ' && !inner.quoted && inner.current.len() > 0 {
            assert(st.words + inner.words.push(inner.current) =~= (st.words + inner.words).push(
                inner.current,
            ));
        }
        assert(scan_from(st, s) =~= (ScanState {
            words: st.words + scan(s).words,
            current: scan(s).current,
            quoted: scan(s).quoted,
        }));
    }
}

/// The words of `lhs op rhs`, for a one-character operator `op`.
proof fn lemma_binary_words(lhs: Seq<char>, op: char, rhs: Seq<char>)
    requires
        is_word(lhs),
        is_word(rhs),
        op != ' ',
        op != '"',
    ensures
        words(lhs + seq![' ', op, ' '] + rhs) == seq![lhs, seq![op], rhs],
{
    let e = lhs + seq![' ', op, ' '] + rhs;
    let s0 = initial_scan();
    let sep = seq![' ', op, ' '];
    lemma_scan_is_scan_from(e);
    lemma_scan_is_scan_from(lhs);
    lemma_scan_from_concat(s0, lhs + sep, rhs);
    lemma_scan_from_concat(s0, lhs, sep);
    let s1 = scan_from(s0, lhs);
    assert(s1 =~= ScanState { words: Seq::empty(), current: lhs, quoted: false });
    assert(sep.drop_last() =~= seq![' ', op]);
    assert(sep.drop_last().drop_last() =~= seq![' ']);
    assert(sep.drop_last().drop_last().drop_last() =~= Seq::<char>::empty());
    assert(scan_from(s1, Seq::<char>::empty()) == s1);
    let t1 = scan_from(s1, seq![' ']);
    assert(seq![' '].drop_last() =~= Seq::<char>::empty());
    assert(t1 =~= ScanState { words: seq![lhs], current: Seq::empty(), quoted: false });
    let t2 = scan_from(s1, seq![' ', op]);
    assert(seq![' ', op].drop_last() =~= seq![' ']);
    assert(t2 =~= ScanState { words: seq![lhs], current: seq![op], quoted: false });
    let s2 = scan_from(s1, sep);
    assert(s2.words =~= seq![lhs, seq![op]]);
    assert(s2.current.len() == 0 && !s2.quoted);
    lemma_scan_from_clean(s2, rhs);
    assert(words(e) =~= seq![lhs, seq![op], rhs]);
}

/// The tokens of `lhs op rhs`, and that each of its words makes a token.
proof fn lemma_binary_tokens(lhs: Seq<char>, op: char, rhs: Seq<char>)
    requires
        is_word(lhs),
        is_word(rhs),
        op != ' ',
        op != '"',
    ensures
        lexable(lhs + seq![' ', op, ' '] + rhs),
        tokens_of(lhs + seq![' ', op, ' '] + rhs) == seq![
            token_of(lhs),
            token_of(seq![op]),
            token_of(rhs),
        ],
{
    let e = lhs + seq![' ', op, ' '] + rhs;
    lemma_binary_words(lhs, op, rhs);
    lemma_word_not_lone_quote(lhs);
    lemma_word_not_lone_quote(rhs);
    let o = seq![op];
    assert(o[0] != seq!['"'][0]);
    assert(!is_lone_quote(o));
    assert(tokens_of(e) =~= seq![token_of(lhs), token_of(o), token_of(rhs)]);
}

/// The tokens of an expression of one word.
proof fn lemma_single_token(w: Seq<char>)
    requires
        is_word(w),
    ensures
        lexable(w),
        tokens_of(w) == seq![token_of(w)],
{
    lemma_single_word(w);
    lemma_word_not_lone_quote(w);
    assert(tokens_of(w) =~= seq![token_of(w)]);
}

/// A word on its own is the one word of the expression it makes.
proof fn lemma_single_word(w: Seq<char>)
    requires
        is_word(w),
    ensures
        words(w) == seq![w],
{
    assert(words(w) =~= seq![w]);
}

proof fn lemma_word_not_lone_quote(w: Seq<char>)
    requires
        is_word(w),
    ensures
        !is_lone_quote(w),
{
    if w == seq!['"'] {
        assert(w.drop_last() =~= Seq::<char>::empty());
        assert(!scan(Seq::<char>::empty()).quoted);
        assert(scan(w).quoted);
    }
}

/// Reading a variable gives back what was assigned to it. For a name that
/// is an identifier and a word whose value can be read in `env`, evaluating
/// `name = word` displays nothing and binds the name to that value (every
/// other name keeps its value); evaluating `name` afterwards displays what
/// evaluating `word` displayed before.
pub proof fn law_read_after_assignment(env: Map<Seq<char>, Value>, name: Seq<char>, word: Seq<char>)
    requires
        is_word(name),
        is_word(word),
        token_of(name).kind is Identifier,
        token_value(token_of(word), env) is Ok,
    ensures
        ({
            let e = name + seq![' ', '=', ' '] + word;
            let after = evaluation(e, env);
            &&& !evaluation_aborts(e, env)
            &&& after.0 == Ok::<Option<Shown>, Seq<char>>(None)
            &&& after.1 == env.insert(name, token_value(token_of(word), env)->Ok_0)
            &&& !evaluation_aborts(name, after.1)
            &&& evaluation(name, after.1).0 == evaluation(word, env).0
        }),
{
    let eq = seq!['='];
    lemma_binary_tokens(name, '=', word);
    lemma_single_token(name);
    lemma_single_token(word);
    assert(token_of(eq).kind is Assign);
    assert(token_of(name).representation == name);
}

/// Adding two integer literals displays the decimal text of their sum, the
/// same whichever comes first; where the sum leaves the range of `i64` the
/// evaluation cannot complete.
pub proof fn law_integer_addition(
    env: Map<Seq<char>, Value>,
    a: Seq<char>,
    b: Seq<char>,
    x: i64,
    y: i64,
)
    requires
        is_word(a),
        is_word(b),
        token_of(a).kind == TokenKind::Int(x),
        token_of(b).kind == TokenKind::Int(y),
    ensures
        ({
            let ab = a + seq![' ', '+', ' '] + b;
            let ba = b + seq![' ', '+', ' '] + a;
            &&& i64::MIN <= x + y <= i64::MAX ==> {
                &&& !evaluation_aborts(ab, env)
                &&& evaluation(ab, env) == (
                    Ok::<Option<Shown>, Seq<char>>(Some(Shown::Text(int_text(x + y)))),
                    env,
                )
                &&& evaluation(ba, env) == evaluation(ab, env)
            }
            &&& !(i64::MIN <= x + y <= i64::MAX) ==> evaluation_aborts(ab, env)
        }),
{
    lemma_binary_tokens(a, '+', b);
    lemma_binary_tokens(b, '+', a);
    assert(token_of(seq!['+']).kind is Add);
}

/// Adding two string literals displays their concatenation.
pub proof fn law_string_concatenation(
    env: Map<Seq<char>, Value>,
    a: Seq<char>,
    b: Seq<char>,
    s: Seq<char>,
    t: Seq<char>,
)
    requires
        is_word(a),
        is_word(b),
        token_of(a).kind == TokenKind::Str(s),
        token_of(b).kind == TokenKind::Str(t),
    ensures
        !evaluation_aborts(a + seq![' ', '+', ' '] + b, env),
        evaluation(a + seq![' ', '+', ' '] + b, env) == (
            Ok::<Option<Shown>, Seq<char>>(Some(Shown::Text(s + t))),
            env,
        ),
{
    lemma_binary_tokens(a, '+', b);
    assert(token_of(seq!['+']).kind is Add);
}

/// A space outside quotes leaves the splitter between words, so a second
/// space changes nothing.
proof fn lemma_space_state(st: ScanState)
    requires
        !st.quoted,
    ensures
        scan_from(st, seq![' ', ' ']) == scan_from(st, seq![' ']),
        scan_from(st, seq![' ']).current.len() == 0,
        !scan_from(st, seq![' ']).quoted,
{
    assert(seq![' ', ' '].drop_last() =~= seq![' ']);
    assert(seq![' '].drop_last() =~= Seq::<char>::empty());
    assert(scan_from(st, Seq::<char>::empty()) == st);
}

proof fn lemma_blank_scan(s: Seq<char>)
    requires
        forall|i: int| 0 <= i < s.len() ==> s[i] == ' ',
    ensures
        scan(s) == initial_scan(),
    decreases s.len(),
{
    if s.len() > 0 {
        assert forall|i: int| 0 <= i < s.drop_last().len() implies s.drop_last()[i] == ' ' by {
            assert(s.drop_last()[i] == s[i]);
        }
        lemma_blank_scan(s.drop_last());
        assert(s.last() == s[s.len() - 1]);
        assert(scan(s) =~= initial_scan());
    }
}

/// Spaces outside quotes only separate words: doubling a space that stands
/// outside quotes, adding a space in front, or adding one at the end where
/// no quotation is open leaves the words, and so the tokens and the
/// evaluation, unchanged; an expression of spaces alone has no words.
pub proof fn law_spaces_outside_quotes(a: Seq<char>, b: Seq<char>, env: Map<Seq<char>, Value>)
    ensures
        !scan(a).quoted ==> words(a + seq![' ', ' '] + b) == words(a + seq![' '] + b),
        words(seq![' '] + a) == words(a),
        !scan(a).quoted ==> words(a + seq![' ']) == words(a),
        !scan(a).quoted ==> evaluation(a + seq![' ', ' '] + b, env) == evaluation(
            a + seq![' '] + b,
            env,
        ),
        !scan(a).quoted ==> evaluation_aborts(a + seq![' ', ' '] + b, env) == evaluation_aborts(
            a + seq![' '] + b,
            env,
        ),
        (forall|i: int| 0 <= i < a.len() ==> a[i] == ' ') ==> words(a).len() == 0,
{
    let s0 = initial_scan();
    lemma_scan_is_scan_from(a);
    if !scan(a).quoted {
        let st = scan(a);
        lemma_space_state(st);
        lemma_scan_is_scan_from(a + seq![' ', ' '] + b);
        lemma_scan_is_scan_from(a + seq![' '] + b);
        lemma_scan_from_concat(s0, a + seq![' ', ' '], b);
        lemma_scan_from_concat(s0, a, seq![' ', ' ']);
        lemma_scan_from_concat(s0, a + seq![' '], b);
        lemma_scan_from_concat(s0, a, seq![' ']);
        assert(words(a + seq![' ', ' '] + b) == words(a + seq![' '] + b));
        assert(tokens_of(a + seq![' ', ' '] + b) == tokens_of(a + seq![' '] + b));
        assert(lexable(a + seq![' ', ' '] + b) == lexable(a + seq![' '] + b));
        // One space at the end.
        lemma_scan_is_scan_from(a + seq![' ']);
        assert(seq![' '].drop_last() =~= Seq::<char>::empty());
        assert(scan_from(st, Seq::<char>::empty()) == st);
        if st.current.len() > 0 {
            assert(words(a + seq![' ']) =~= words(a));
        } else {
            assert(words(a + seq![' ']) =~= words(a));
        }
    }
    // One space in front.
    lemma_scan_is_scan_from(seq![' '] + a);
    lemma_scan_from_concat(s0, seq![' '], a);
    lemma_space_state(s0);
    assert(seq![' '].drop_last() =~= Seq::<char>::empty());
    assert(scan_from(s0, Seq::<char>::empty()) == s0);
    assert(scan_from(s0, seq![' ']) =~= s0);
    if forall|i: int| 0 <= i < a.len() ==> a[i] == ' ' {
        lemma_blank_scan(a);
        assert(words(a) =~= Seq::<Seq<char>>::empty());
    }
}

proof fn lemma_environment_prefix(
    ls1: Seq<Seq<char>>,
    ls2: Seq<Seq<char>>,
    env: Map<Seq<char>, Value>,
    i: int,
)
    requires
        0 <= i <= ls1.len(),
    ensures
        environment_after(ls1 + ls2, env, i) == environment_after(ls1, env, i),
    decreases i,
{
    if i > 0 {
        lemma_environment_prefix(ls1, ls2, env, i - 1);
        assert((ls1 + ls2)[i - 1] == ls1[i - 1]);
    }
}

proof fn lemma_environment_suffix(
    ls1: Seq<Seq<char>>,
    ls2: Seq<Seq<char>>,
    env: Map<Seq<char>, Value>,
    j: int,
)
    requires
        0 <= j <= ls2.len(),
    ensures
        environment_after(ls1 + ls2, env, ls1.len() + j) == environment_after(
            ls2,
            environment_after(ls1, env, ls1.len() as int),
            j,
        ),
    decreases j,
{
    if j == 0 {
        lemma_environment_prefix(ls1, ls2, env, ls1.len() as int);
    } else {
        lemma_environment_suffix(ls1, ls2, env, j - 1);
        assert((ls1 + ls2)[ls1.len() + j - 1] == ls2[j - 1]);
    }
}

proof fn lemma_concat_all_append(o1: Seq<Seq<u8>>, o2: Seq<Seq<u8>>)
    ensures
        concat_all(o1 + o2) == concat_all(o1) + concat_all(o2),
    decreases o2.len(),
{
    if o2.len() == 0 {
        assert(o1 + o2 =~= o1);
        assert(concat_all(o1) + Seq::<u8>::empty() =~= concat_all(o1));
    } else {
        lemma_concat_all_append(o1, o2.drop_last());
        assert((o1 + o2).drop_last() =~= o1 + o2.drop_last());
        assert((o1 + o2).last() == o2.last());
        assert(concat_all(o1) + concat_all(o2) =~= concat_all(o1) + concat_all(o2.drop_last())
            + o2.last());
    }
}

/// Where the lines and environments of the joined batch are those of its parts.
proof fn lemma_joined_lines(ls1: Seq<Seq<char>>, ls2: Seq<Seq<char>>, env: Map<Seq<char>, Value>)
    ensures
        forall|i: int|
            0 <= i < ls1.len() ==> #[trigger] environment_after(ls1 + ls2, env, i)
                == environment_after(ls1, env, i) && (ls1 + ls2)[i] == ls1[i],
        forall|j: int|
            0 <= j < ls2.len() ==> #[trigger] environment_after(ls1 + ls2, env, ls1.len() + j)
                == environment_after(ls2, environment_after(ls1, env, ls1.len() as int), j) && (ls1
                + ls2)[ls1.len() + j] == ls2[j],
{
    assert forall|i: int| 0 <= i < ls1.len() implies #[trigger] environment_after(ls1 + ls2, env, i)
        == environment_after(ls1, env, i) && (ls1 + ls2)[i] == ls1[i] by {
        lemma_environment_prefix(ls1, ls2, env, i);
    }
    assert forall|j: int| 0 <= j < ls2.len() implies #[trigger] environment_after(
        ls1 + ls2,
        env,
        ls1.len() + j,
    ) == environment_after(ls2, environment_after(ls1, env, ls1.len() as int), j) && (ls1 + ls2)[ls1.len()
        + j] == ls2[j] by {
        lemma_environment_suffix(ls1, ls2, env, j);
    }
}

proof fn lemma_aborts_compose(ls1: Seq<Seq<char>>, ls2: Seq<Seq<char>>, env: Map<Seq<char>, Value>)
    ensures
        batch_aborts(ls1 + ls2, env) == (batch_aborts(ls1, env) || batch_aborts(
            ls2,
            environment_after(ls1, env, ls1.len() as int),
        )),
{
    let ls = ls1 + ls2;
    let n1 = ls1.len() as int;
    let mid = environment_after(ls1, env, n1);
    lemma_joined_lines(ls1, ls2, env);
    if batch_aborts(ls, env) {
        let i = choose|i: int|
            0 <= i < ls.len() && evaluation_aborts(ls[i], #[trigger] environment_after(ls, env, i));
        if i < n1 {
            assert(evaluation_aborts(ls1[i], environment_after(ls1, env, i)));
        } else {
            assert(environment_after(ls, env, n1 + (i - n1)) == environment_after(ls2, mid, i - n1));
            assert(evaluation_aborts(ls2[i - n1], environment_after(ls2, mid, i - n1)));
        }
    }
    if batch_aborts(ls1, env) {
        let i = choose|i: int|
            0 <= i < ls1.len() && evaluation_aborts(ls1[i], #[trigger] environment_after(ls1, env, i));
        assert(evaluation_aborts(ls[i], environment_after(ls, env, i)));
    }
    if batch_aborts(ls2, mid) {
        let j = choose|j: int|
            0 <= j < ls2.len() && evaluation_aborts(ls2[j], #[trigger] environment_after(ls2, mid, j));
        assert(evaluation_aborts(ls[n1 + j], environment_after(ls, env, n1 + j)));
    }
}

proof fn lemma_writes_split<F: Fn(&FloatTerm) -> String>(
    float_text: F,
    ls1: Seq<Seq<char>>,
    ls2: Seq<Seq<char>>,
    env: Map<Seq<char>, Value>,
    written: Seq<u8>,
)
    requires
        batch_writes(float_text, ls1 + ls2, env, written),
    ensures
        exists|w1: Seq<u8>, w2: Seq<u8>|
            #![trigger batch_writes(float_text, ls1, env, w1), batch_writes(float_text, ls2, environment_after(ls1, env, ls1.len() as int), w2)]
            written == w1 + w2 && batch_writes(float_text, ls1, env, w1) && batch_writes(
                float_text,
                ls2,
                environment_after(ls1, env, ls1.len() as int),
                w2,
            ),
{
    let ls = ls1 + ls2;
    let n1 = ls1.len() as int;
    let mid = environment_after(ls1, env, n1);
    lemma_joined_lines(ls1, ls2, env);
    let outs = choose|outs: Seq<Seq<u8>>|
        {
            &&& outs.len() == ls.len()
            &&& forall|i: int|
                0 <= i < outs.len() ==> batch_output(
                    float_text,
                    evaluation(ls[i], environment_after(ls, env, i)).0,
                    #[trigger] outs[i],
                )
            &&& written == #[trigger] concat_all(outs)
        };
    let o1 = outs.take(n1);
    let o2 = outs.skip(n1);
    assert(outs =~= o1 + o2);
    lemma_concat_all_append(o1, o2);
    assert forall|i: int| 0 <= i < o1.len() implies batch_output(
        float_text,
        evaluation(ls1[i], environment_after(ls1, env, i)).0,
        #[trigger] o1[i],
    ) by {
        assert(o1[i] == outs[i]);
    }
    assert forall|j: int| 0 <= j < o2.len() implies batch_output(
        float_text,
        evaluation(ls2[j], environment_after(ls2, mid, j)).0,
        #[trigger] o2[j],
    ) by {
        assert(o2[j] == outs[n1 + j]);
    }
    assert(batch_writes(float_text, ls1, env, concat_all(o1)));
    assert(batch_writes(float_text, ls2, mid, concat_all(o2)));
}

proof fn lemma_writes_join<F: Fn(&FloatTerm) -> String>(
    float_text: F,
    ls1: Seq<Seq<char>>,
    ls2: Seq<Seq<char>>,
    env: Map<Seq<char>, Value>,
    w1: Seq<u8>,
    w2: Seq<u8>,
)
    requires
        batch_writes(float_text, ls1, env, w1),
        batch_writes(float_text, ls2, environment_after(ls1, env, ls1.len() as int), w2),
    ensures
        batch_writes(float_text, ls1 + ls2, env, w1 + w2),
{
    let ls = ls1 + ls2;
    let n1 = ls1.len() as int;
    let mid = environment_after(ls1, env, n1);
    lemma_joined_lines(ls1, ls2, env);
    let o1 = choose|outs: Seq<Seq<u8>>|
        {
            &&& outs.len() == ls1.len()
            &&& forall|i: int|
                0 <= i < outs.len() ==> batch_output(
                    float_text,
                    evaluation(ls1[i], environment_after(ls1, env, i)).0,
                    #[trigger] outs[i],
                )
            &&& w1 == #[trigger] concat_all(outs)
        };
    let o2 = choose|outs: Seq<Seq<u8>>|
        {
            &&& outs.len() == ls2.len()
            &&& forall|i: int|
                0 <= i < outs.len() ==> batch_output(
                    float_text,
                    evaluation(ls2[i], environment_after(ls2, mid, i)).0,
                    #[trigger] outs[i],
                )
            &&& w2 == #[trigger] concat_all(outs)
        };
    let outs = o1 + o2;
    lemma_concat_all_append(o1, o2);
    assert forall|i: int| 0 <= i < outs.len() implies batch_output(
        float_text,
        evaluation(ls[i], environment_after(ls, env, i)).0,
        #[trigger] outs[i],
    ) by {
        if i < n1 {
            assert(outs[i] == o1[i]);
        } else {
            assert(outs[i] == o2[i - n1]);
            assert(environment_after(ls, env, n1 + (i - n1)) == environment_after(ls2, mid, i - n1));
        }
    }
    assert(batch_writes(float_text, ls, env, concat_all(outs)));
}

proof fn lemma_empty_batch<F: Fn(&FloatTerm) -> String>(
    float_text: F,
    env: Map<Seq<char>, Value>,
    written: Seq<u8>,
)
    ensures
        batch_writes(float_text, Seq::<Seq<char>>::empty(), env, written) == (written
            == Seq::<u8>::empty()),
{
    let e = Seq::<Seq<char>>::empty();
    if batch_writes(float_text, e, env, written) {
        let outs = choose|outs: Seq<Seq<u8>>|
            {
                &&& outs.len() == e.len()
                &&& forall|i: int|
                    0 <= i < outs.len() ==> batch_output(
                        float_text,
                        evaluation(e[i], environment_after(e, env, i)).0,
                        #[trigger] outs[i],
                    )
                &&& written == #[trigger] concat_all(outs)
            };
        assert(outs =~= Seq::<Seq<u8>>::empty());
    }
    if written == Seq::<u8>::empty() {
        assert(concat_all(Seq::<Seq<u8>>::empty()) == Seq::<u8>::empty());
        assert(batch_writes(float_text, e, env, concat_all(Seq::<Seq<u8>>::empty())));
    }
}

/// Two batches in a row are one batch of both: evaluating `ls1` and then
/// `ls2` leaves the environment that evaluating `ls1 + ls2` leaves, cannot
/// complete exactly where the one batch cannot, and writes exactly what the
/// one batch writes: the output of `ls1` followed by that of `ls2`. An
/// empty batch changes nothing and writes nothing.
pub proof fn law_batches_compose<F: Fn(&FloatTerm) -> String>(
    float_text: F,
    ls1: Seq<Seq<char>>,
    ls2: Seq<Seq<char>>,
    env: Map<Seq<char>, Value>,
    written: Seq<u8>,
)
    ensures
        ({
            let mid = environment_after(ls1, env, ls1.len() as int);
            &&& environment_after(ls1 + ls2, env, (ls1.len() + ls2.len()) as int)
                == environment_after(ls2, mid, ls2.len() as int)
            &&& batch_aborts(ls1 + ls2, env) == (batch_aborts(ls1, env) || batch_aborts(ls2, mid))
            &&& batch_writes(float_text, ls1 + ls2, env, written) == (exists|w1: Seq<u8>, w2: Seq<u8>|
                #![trigger batch_writes(float_text, ls1, env, w1), batch_writes(float_text, ls2, mid, w2)]
                written == w1 + w2 && batch_writes(float_text, ls1, env, w1) && batch_writes(
                    float_text,
                    ls2,
                    mid,
                    w2,
                ))
        }),
        environment_after(Seq::<Seq<char>>::empty(), env, 0) == env,
        !batch_aborts(Seq::<Seq<char>>::empty(), env),
        batch_writes(float_text, Seq::<Seq<char>>::empty(), env, written) == (written
            == Seq::<u8>::empty()),
{
    let mid = environment_after(ls1, env, ls1.len() as int);
    lemma_environment_suffix(ls1, ls2, env, ls2.len() as int);
    lemma_aborts_compose(ls1, ls2, env);
    if batch_writes(float_text, ls1 + ls2, env, written) {
        lemma_writes_split(float_text, ls1, ls2, env, written);
    }
    if exists|w1: Seq<u8>, w2: Seq<u8>|
        #![trigger batch_writes(float_text, ls1, env, w1), batch_writes(float_text, ls2, mid, w2)]
        written == w1 + w2 && batch_writes(float_text, ls1, env, w1) && batch_writes(
            float_text,
            ls2,
            mid,
            w2,
        ) {
        let (w1, w2) = choose|w1: Seq<u8>, w2: Seq<u8>|
            #![trigger batch_writes(float_text, ls1, env, w1), batch_writes(float_text, ls2, mid, w2)]
            written == w1 + w2 && batch_writes(float_text, ls1, env, w1) && batch_writes(
                float_text,
                ls2,
                mid,
                w2,
            );
        lemma_writes_join(float_text, ls1, ls2, env, w1, w2);
    }
    lemma_empty_batch(float_text, env, written);
}


/// An expression with neither spaces nor double quotes is one word.
proof fn lemma_plain_scan(s: Seq<char>)
    requires
        forall|i: int| 0 <= i < s.len() ==> s[i] != ' ' && s[i] != '"',
    ensures
        scan(s) == (ScanState { words: Seq::empty(), current: s, quoted: false }),
    decreases s.len(),
{
    if s.len() > 0 {
        assert forall|i: int| 0 <= i < s.drop_last().len() implies s.drop_last()[i] != ' '
            && s.drop_last()[i] != '"' by {
            assert(s.drop_last()[i] == s[i]);
        }
        lemma_plain_scan(s.drop_last());
        assert(s.last() == s[s.len() - 1]);
        assert(s.drop_last().push(s.last()) =~= s);
    } else {
        assert(scan(s) =~= ScanState { words: Seq::empty(), current: s, quoted: false });
    }
}

proof fn lemma_plain_word(w: Seq<char>)
    requires
        w.len() > 0,
        forall|i: int| 0 <= i < w.len() ==> w[i] != ' ' && w[i] != '"',
    ensures
        is_word(w),
{
    lemma_plain_scan(w);
}

/// An optional sign: nothing, `+` or `-`.
pub open spec fn is_sign(s: Seq<char>) -> bool {
    s.len() == 0 || s == seq!['+'] || s == seq!['-']
}

/// The number part of a decimal literal: digits, with a point among them
/// where `point` holds.
pub open spec fn number_text(int_digits: Seq<char>, point: bool, frac_digits: Seq<char>) -> Seq<char> {
    if point {
        int_digits + seq!['.'] + frac_digits
    } else {
        int_digits
    }
}

/// An exponent part: nothing, or the marker, an optional sign and digits.
pub open spec fn exponent_text(exponent: bool, marker: char, exp_sign: Seq<char>, exp_digits: Seq<char>) -> Seq<char> {
    if exponent {
        seq![marker] + exp_sign + exp_digits
    } else {
        Seq::empty()
    }
}

proof fn lemma_number_text(d1: Seq<char>, point: bool, d2: Seq<char>)
    requires
        all_digits(d1),
        all_digits(d2),
        point ==> d1.len() + d2.len() > 0,
        !point ==> d1.len() > 0,
    ensures
        is_mantissa(number_text(d1, point, d2)),
        number_text(d1, point, d2).len() > 0,
        forall|i: int|
            0 <= i < number_text(d1, point, d2).len() ==> #[trigger] number_text(d1, point, d2)[i]
                != ' ' && number_text(d1, point, d2)[i] != '"' && number_text(d1, point, d2)[i]
                != '+' && number_text(d1, point, d2)[i] != '-' && number_text(d1, point, d2)[i]
                != '=' && number_text(d1, point, d2)[i] != 'e' && number_text(d1, point, d2)[i] != 'E',
        point ==> !all_digits(number_text(d1, point, d2)),
{
    let m = number_text(d1, point, d2);
    assert forall|i: int| 0 <= i < m.len() implies is_digit(#[trigger] m[i]) || m[i] == '.' by {
        if point {
            if i < d1.len() {
                assert(m[i] == d1[i]);
            } else if i > d1.len() {
                assert(m[i] == d2[i - d1.len() - 1]);
            }
        }
    }
    assert forall|i: int, j: int|
        0 <= i < m.len() && 0 <= j < m.len() && #[trigger] m[i] == '.' && #[trigger] m[j] == '.'
            implies i == j by {
        if point {
            if i < d1.len() {
                assert(m[i] == d1[i]);
                assert(is_digit(d1[i]));
            } else if i > d1.len() {
                assert(m[i] == d2[i - d1.len() - 1]);
                assert(is_digit(d2[i - d1.len() - 1]));
            }
            if j < d1.len() {
                assert(m[j] == d1[j]);
                assert(is_digit(d1[j]));
            } else if j > d1.len() {
                assert(m[j] == d2[j - d1.len() - 1]);
                assert(is_digit(d2[j - d1.len() - 1]));
            }
        } else {
            assert(is_digit(d1[i]));
        }
    }
    if d1.len() > 0 {
        assert(m[0] == d1[0]);
        assert(is_digit(m[0]));
    } else {
        assert(m[1] == d2[0]);
        assert(is_digit(m[1]));
    }
    assert forall|i: int| 0 <= i < m.len() implies #[trigger] m[i] != ' ' && m[i] != '"' && m[i]
        != '+' && m[i] != '-' && m[i] != '=' && m[i] != 'e' && m[i] != 'E' by {
        assert(is_digit(m[i]) || m[i] == '.');
    }
    if point {
        assert(m[d1.len() as int] == '.');
        assert(!is_digit(m[d1.len() as int]));
    }
}

proof fn lemma_exponent_text(exponent: bool, marker: char, exp_sign: Seq<char>, exp_digits: Seq<char>)
    requires
        exponent ==> (marker == 'e' || marker == 'E') && is_sign(exp_sign) && exp_digits.len() > 0
            && all_digits(exp_digits),
    ensures
        exponent ==> ascii_lower(marker) == 'e' && !is_digit(marker) && marker != '.',
        exponent ==> is_exponent(exp_sign + exp_digits),
        forall|k: int|
            0 <= k < exponent_text(exponent, marker, exp_sign, exp_digits).len() ==> #[trigger] exponent_text(
                exponent,
                marker,
                exp_sign,
                exp_digits,
            )[k] != ' ' && exponent_text(exponent, marker, exp_sign, exp_digits)[k] != '"',
{
    let x = exponent_text(exponent, marker, exp_sign, exp_digits);
    if exponent {
        assert(ascii_lower(marker) == 'e') by {
            if marker == 'E' {
                assert(('E' as u32) == 69);
                assert(((69u32 + 32) as char) == 'e');
            }
        }
        let es = exp_sign + exp_digits;
        assert(unsigned_part(es) =~= exp_digits) by {
            if exp_sign.len() == 0 {
                assert(es =~= exp_digits);
                assert(is_digit(exp_digits[0]));
            } else {
                assert(es.drop_first() =~= exp_digits);
            }
        }
        assert forall|k: int| 0 <= k < x.len() implies #[trigger] x[k] != ' ' && x[k] != '"' by {
            if k > 0 {
                if k - 1 < exp_sign.len() {
                    assert(x[k] == exp_sign[0]);
                } else {
                    assert(x[k] == exp_digits[k - 1 - exp_sign.len()]);
                    assert(is_digit(exp_digits[k - 1 - exp_sign.len()]));
                }
            }
        }
    }
}

proof fn lemma_float_word_grammar(
    sign: Seq<char>,
    int_digits: Seq<char>,
    point: bool,
    frac_digits: Seq<char>,
    exponent: bool,
    marker: char,
    exp_sign: Seq<char>,
    exp_digits: Seq<char>,
)
    requires
        is_sign(sign),
        all_digits(int_digits),
        all_digits(frac_digits),
        point ==> int_digits.len() + frac_digits.len() > 0,
        !point ==> int_digits.len() > 0,
        point || exponent,
        exponent ==> (marker == 'e' || marker == 'E') && is_sign(exp_sign) && exp_digits.len() > 0
            && all_digits(exp_digits),
    ensures
        ({
            let w = sign + number_text(int_digits, point, frac_digits) + exponent_text(
                exponent,
                marker,
                exp_sign,
                exp_digits,
            );
            &&& is_float_literal(w)
            &&& int_literal_value(w) is None
        }),
{
    let m = number_text(int_digits, point, frac_digits);
    let x = exponent_text(exponent, marker, exp_sign, exp_digits);
    let body = m + x;
    let w = sign + m + x;
    lemma_number_text(int_digits, point, frac_digits);
    lemma_exponent_text(exponent, marker, exp_sign, exp_digits);
    assert(unsigned_part(w) =~= body) by {
        if sign.len() == 0 {
            assert(w =~= body);
            assert(w[0] == m[0]);
        } else {
            assert(w.drop_first() =~= body);
        }
    }
    if exponent {
        let p = m.len() as int;
        assert(body[p] == marker);
        assert(body.take(p) =~= m);
        assert(body.skip(p + 1) =~= exp_sign + exp_digits);
        assert(is_decimal_number(body));
        assert(!all_digits(body)) by {
            assert(!is_digit(body[p]));
        }
    } else {
        assert(body =~= m);
        assert(is_decimal_number(body));
        assert(!all_digits(body));
    }
}

proof fn lemma_float_word_plain(
    sign: Seq<char>,
    int_digits: Seq<char>,
    point: bool,
    frac_digits: Seq<char>,
    exponent: bool,
    marker: char,
    exp_sign: Seq<char>,
    exp_digits: Seq<char>,
)
    requires
        is_sign(sign),
        all_digits(int_digits),
        all_digits(frac_digits),
        point ==> int_digits.len() + frac_digits.len() > 0,
        !point ==> int_digits.len() > 0,
        exponent ==> (marker == 'e' || marker == 'E') && is_sign(exp_sign) && exp_digits.len() > 0
            && all_digits(exp_digits),
    ensures
        ({
            let w = sign + number_text(int_digits, point, frac_digits) + exponent_text(
                exponent,
                marker,
                exp_sign,
                exp_digits,
            );
            &&& w.len() > 0
            &&& forall|i: int| 0 <= i < w.len() ==> w[i] != ' ' && w[i] != '"'
            &&& w != seq!['+']
            &&& w != seq!['=']
        }),
{
    let m = number_text(int_digits, point, frac_digits);
    let x = exponent_text(exponent, marker, exp_sign, exp_digits);
    let w = sign + m + x;
    lemma_number_text(int_digits, point, frac_digits);
    lemma_exponent_text(exponent, marker, exp_sign, exp_digits);
    assert forall|i: int| 0 <= i < w.len() implies w[i] != ' ' && w[i] != '"' by {
        if i < sign.len() {
            assert(w[i] == sign[0]);
        } else if i < sign.len() + m.len() {
            assert(w[i] == m[i - sign.len()]);
        } else {
            assert(w[i] == x[i - sign.len() - m.len()]);
        }
    }
    assert(w != seq!['+'] && w != seq!['=']) by {
        if w.len() == 1 {
            assert(sign.len() == 0);
            assert(w[0] == m[0]);
        }
    }
}

/// Every decimal floating-point word is a floating-point literal that keeps
/// its whole text, sign included. A word made of an optional sign, digits
/// with one point (`5.`, `.5`, `-2.5`) or without one, and an optional
/// exponent (`e` or `E`, an optional sign, digits), with a point or an
/// exponent present, is accepted by `f64`'s grammar, is no integer literal,
/// and makes the floating-point token whose text is the word itself;
/// evaluating it displays the floating-point value of that whole text.
pub proof fn law_decimal_float_words(
    env: Map<Seq<char>, Value>,
    sign: Seq<char>,
    int_digits: Seq<char>,
    point: bool,
    frac_digits: Seq<char>,
    exponent: bool,
    marker: char,
    exp_sign: Seq<char>,
    exp_digits: Seq<char>,
)
    requires
        is_sign(sign),
        all_digits(int_digits),
        all_digits(frac_digits),
        point ==> int_digits.len() + frac_digits.len() > 0,
        !point ==> int_digits.len() > 0,
        point || exponent,
        exponent ==> (marker == 'e' || marker == 'E') && is_sign(exp_sign) && exp_digits.len() > 0
            && all_digits(exp_digits),
    ensures
        ({
            let w = sign + number_text(int_digits, point, frac_digits) + exponent_text(
                exponent,
                marker,
                exp_sign,
                exp_digits,
            );
            &&& is_float_literal(w)
            &&& int_literal_value(w) is None
            &&& token_of(w) == (TokenModel { representation: w, kind: TokenKind::Float(w) })
            &&& !evaluation_aborts(w, env)
            &&& evaluation(w, env) == (
                Ok::<Option<Shown>, Seq<char>>(Some(Shown::Float(FloatValue::Literal(w)))),
                env,
            )
        }),
{
    let w = sign + number_text(int_digits, point, frac_digits) + exponent_text(
        exponent,
        marker,
        exp_sign,
        exp_digits,
    );
    lemma_float_word_grammar(sign, int_digits, point, frac_digits, exponent, marker, exp_sign, exp_digits);
    lemma_float_word_plain(sign, int_digits, point, frac_digits, exponent, marker, exp_sign, exp_digits);
    assert(token_of(w) == (TokenModel { representation: w, kind: TokenKind::Float(w) }));
    lemma_plain_word(w);
    lemma_single_token(w);
}

/// An integer and a floating-point value add as the `f64` sum of the
/// integer (converted) and that value, the integer on the side where it
/// stood; two floating-point values add as their sum, left first. None of
/// these sums fails.
pub proof fn law_mixed_sums_keep_their_operands(x: i64, y: FloatValue, z: FloatValue)
    ensures
        add_values(Value::Int(x), Value::Float(y)) == Some(
            Value::Float(FloatValue::Sum(Box::new(FloatValue::Integer(x)), Box::new(y))),
        ),
        add_values(Value::Float(y), Value::Int(x)) == Some(
            Value::Float(FloatValue::Sum(Box::new(y), Box::new(FloatValue::Integer(x)))),
        ),
        add_values(Value::Float(y), Value::Float(z)) == Some(
            Value::Float(FloatValue::Sum(Box::new(y), Box::new(z))),
        ),
{
}

/// Adding an integer word and a floating-point word displays the `f64` sum
/// of the integer, with its sign, and the floating-point literal, in the
/// order they were written; it never fails.
pub proof fn law_mixed_addition(
    env: Map<Seq<char>, Value>,
    a: Seq<char>,
    b: Seq<char>,
    x: i64,
    t: Seq<char>,
)
    requires
        is_word(a),
        is_word(b),
        token_of(a).kind == TokenKind::Int(x),
        token_of(b).kind == TokenKind::Float(t),
    ensures
        ({
            let ab = a + seq![' ', '+', ' '] + b;
            let ba = b + seq![' ', '+', ' '] + a;
            &&& !evaluation_aborts(ab, env)
            &&& !evaluation_aborts(ba, env)
            &&& evaluation(ab, env) == (
                Ok::<Option<Shown>, Seq<char>>(
                    Some(
                        Shown::Float(
                            FloatValue::Sum(
                                Box::new(FloatValue::Integer(x)),
                                Box::new(FloatValue::Literal(t)),
                            ),
                        ),
                    ),
                ),
                env,
            )
            &&& evaluation(ba, env) == (
                Ok::<Option<Shown>, Seq<char>>(
                    Some(
                        Shown::Float(
                            FloatValue::Sum(
                                Box::new(FloatValue::Literal(t)),
                                Box::new(FloatValue::Integer(x)),
                            ),
                        ),
                    ),
                ),
                env,
            )
        }),
{
    lemma_binary_tokens(a, '+', b);
    lemma_binary_tokens(b, '+', a);
    assert(token_of(seq!['+']).kind is Add);
}

/// Evaluation cannot complete only where a word is a lone double quote or a
/// sum's two values do not add: a sum of two integers whose result leaves
/// the range of `i64`, or a string and a number. An integer and a
/// floating-point value, two floating-point values, two strings and two
/// integers with a sum in range always add; expressions that are no sum,
/// and sums with an operand that has no value, never abort.
pub proof fn law_aborts_only_where_values_do_not_add(e: Seq<char>, env: Map<Seq<char>, Value>)
    ensures
        !lexable(e) ==> evaluation_aborts(e, env),
        lexable(e) && !(tokens_of(e).len() == 3 && tokens_of(e)[1].kind is Add)
            ==> !evaluation_aborts(e, env),
        lexable(e) && tokens_of(e).len() == 3 && tokens_of(e)[1].kind is Add && (token_value(
            tokens_of(e)[0],
            env,
        ) is Err || token_value(tokens_of(e)[2], env) is Err) ==> !evaluation_aborts(e, env),
        ({
            let ts = tokens_of(e);
            lexable(e) && ts.len() == 3 && ts[1].kind is Add && token_value(ts[0], env) is Ok
                && token_value(ts[2], env) is Ok ==> {
                let a = token_value(ts[0], env)->Ok_0;
                let b = token_value(ts[2], env)->Ok_0;
                evaluation_aborts(e, env) == !({
                    ||| (a matches Value::Int(x) && b matches Value::Int(y) && i64::MIN <= x + y
                        <= i64::MAX)
                    ||| (a is Int && b is Float)
                    ||| (a is Float && b is Float)
                    ||| (a is Float && b is Int)
                    ||| (a is Str && b is Str)
                })
            }
        }),
{
}


proof fn lemma_zero_digits(zs: Seq<char>)
    requires
        forall|i: int| 0 <= i < zs.len() ==> zs[i] == '0',
    ensures
        digits_value(zs) == 0,
        all_digits(zs),
    decreases zs.len(),
{
    if zs.len() > 0 {
        assert forall|i: int| 0 <= i < zs.drop_last().len() implies zs.drop_last()[i] == '0' by {
            assert(zs.drop_last()[i] == zs[i]);
        }
        lemma_zero_digits(zs.drop_last());
        assert(zs.last() == zs[zs.len() - 1]);
    }
    assert forall|i: int| 0 <= i < zs.len() implies #[trigger] is_digit(zs[i]) by {
        assert(zs[i] == '0');
    }
}

proof fn lemma_leading_zeros(zs: Seq<char>, d: Seq<char>)
    requires
        forall|i: int| 0 <= i < zs.len() ==> zs[i] == '0',
    ensures
        digits_value(zs + d) == digits_value(d),
    decreases d.len(),
{
    if d.len() == 0 {
        assert(zs + d =~= zs);
        lemma_zero_digits(zs);
    } else {
        lemma_leading_zeros(zs, d.drop_last());
        assert((zs + d).drop_last() =~= zs + d.drop_last());
        assert((zs + d).last() == d.last());
    }
}

/// An integer word is read as the value its sign and digits denote: an
/// optional `+` or `-`, any number of leading zeros, then the decimal digits
/// of `n`, is the integer literal `n` or `-n` where that fits in an `i64`,
/// and no integer literal where it does not.
pub proof fn law_integer_words(sign: Seq<char>, zeros: Seq<char>, n: nat)
    requires
        is_sign(sign),
        forall|i: int| 0 <= i < zeros.len() ==> zeros[i] == '0',
    ensures
        ({
            let w = sign + zeros + decimal(n);
            let v: int = if sign == seq!['-'] { -(n as int) } else { n as int };
            &&& i64::MIN <= v <= i64::MAX ==> int_literal_value(w) == Some(v as i64) && token_of(w)
                == (TokenModel { representation: w, kind: TokenKind::Int(v as i64) })
            &&& !(i64::MIN <= v <= i64::MAX) ==> int_literal_value(w) is None
        }),
{
    let d = decimal(n);
    let body = zeros + d;
    let w = sign + zeros + d;
    lemma_decimal(n);
    lemma_zero_digits(zeros);
    lemma_leading_zeros(zeros, d);
    assert(all_digits(body)) by {
        assert forall|i: int| 0 <= i < body.len() implies #[trigger] is_digit(body[i]) by {
            if i < zeros.len() {
                assert(body[i] == zeros[i]);
            } else {
                assert(body[i] == d[i - zeros.len()]);
            }
        }
    }
    assert(is_digit(body[0]));
    assert(unsigned_part(w) =~= body) by {
        if sign.len() == 0 {
            assert(w =~= body);
        } else {
            assert(w.drop_first() =~= body);
        }
    }
    assert(w != seq!['+'] && w != seq!['=']) by {
        if w.len() == 1 {
            assert(sign.len() == 0);
            assert(w[0] == body[0]);
        }
    }
    if sign == seq!['-'] {
        assert(w[0] == '-');
    } else if sign.len() == 1 {
        assert(w[0] == '+');
    }
}

proof fn lemma_quoted_scan(st: ScanState, s: Seq<char>)
    requires
        st.quoted,
        forall|i: int| 0 <= i < s.len() ==> s[i] != '"',
    ensures
        scan_from(st, s) == (ScanState { words: st.words, current: st.current + s, quoted: true }),
    decreases s.len(),
{
    if s.len() == 0 {
        assert(st.current + s =~= st.current);
        assert(scan_from(st, s) =~= ScanState { words: st.words, current: st.current + s, quoted: true });
    } else {
        assert forall|i: int| 0 <= i < s.drop_last().len() implies s.drop_last()[i] != '"' by {
            assert(s.drop_last()[i] == s[i]);
        }
        lemma_quoted_scan(st, s.drop_last());
        assert(s.last() == s[s.len() - 1]);
        assert((st.current + s.drop_last()).push(s.last()) =~= st.current + s);
        assert(scan_from(st, s) =~= ScanState { words: st.words, current: st.current + s, quoted: true });
    }
}

/// A double-quoted word is a string literal of the text between its
/// quotes: for any text without double quotes (spaces allowed), the quoted
/// text is one word, its token is that string, and evaluating it displays
/// the text.
pub proof fn law_quoted_strings(env: Map<Seq<char>, Value>, s: Seq<char>)
    requires
        forall|i: int| 0 <= i < s.len() ==> s[i] != '"',
    ensures
        ({
            let w = seq!['"'] + s + seq!['"'];
            &&& is_word(w)
            &&& token_of(w) == (TokenModel { representation: s, kind: TokenKind::Str(s) })
            &&& !evaluation_aborts(w, env)
            &&& evaluation(w, env) == (
                Ok::<Option<Shown>, Seq<char>>(Some(Shown::Text(s))),
                env,
            )
        }),
{
    let q = seq!['"'];
    let w = q + s + q;
    let s0 = initial_scan();
    lemma_scan_is_scan_from(w);
    lemma_scan_from_concat(s0, q + s, q);
    lemma_scan_from_concat(s0, q, s);
    assert(q.drop_last() =~= Seq::<char>::empty());
    assert(scan_from(s0, Seq::<char>::empty()) == s0);
    let s1 = scan_from(s0, q);
    assert(s1 =~= ScanState { words: Seq::empty(), current: q, quoted: true });
    lemma_quoted_scan(s1, s);
    let s2 = scan_from(s1, s);
    assert(scan_from(s2, Seq::<char>::empty()) == s2);
    assert(q + s + q =~= w);
    assert(scan(w) =~= ScanState { words: Seq::empty(), current: w, quoted: false });
    assert(is_word(w));
    // Neither an integer nor a floating-point literal: it starts with a quote.
    assert(w[0] == '"');
    assert(unsigned_part(w) == w);
    assert(!is_digit(w[0]));
    assert(int_literal_value(w) is None);
    assert(!is_special_float(w)) by {
        assert(lower(w)[0] == '"');
    }
    assert(!is_mantissa(w)) by {
        assert(!(is_digit(w[0]) || w[0] == '.'));
    }
    assert forall|p: int| 0 <= p < w.len() && ascii_lower(#[trigger] w[p]) == 'e' implies !is_mantissa(
        w.take(p),
    ) by {
        if p > 0 {
            assert(w.take(p)[0] == '"');
            assert(!(is_digit(w.take(p)[0]) || w.take(p)[0] == '.'));
        } else {
            assert(w.take(p).len() == 0);
        }
    }
    assert(!is_float_literal(w));
    assert(w != seq!['+'] && w != seq!['=']) by {
        assert(w.len() >= 2);
    }
    assert(w.subrange(1, w.len() - 1) =~= s);
    lemma_single_token(w);
}

/// Evaluating the name of an unbound variable is refused with a message
/// naming it, and changes nothing.
pub proof fn law_unbound_name(env: Map<Seq<char>, Value>, name: Seq<char>)
    requires
        is_word(name),
        token_of(name).kind is Identifier,
        !env.contains_key(name),
    ensures
        !evaluation_aborts(name, env),
        evaluation(name, env) == (
            Err::<Option<Shown>, Seq<char>>("Undefined variable: "@ + name),
            env,
        ),
{
    lemma_single_token(name);
}

/// The first line of a text is its beginning up to and including the first
/// newline, or all of it where it has no newline: a prefix of the text
/// with no newline before its end, which ends with a newline unless it is
/// the whole text.
pub proof fn law_first_line(b: Seq<u8>)
    ensures
        first_line(b).len() <= b.len(),
        first_line(b) == b.take(first_line(b).len() as int),
        forall|i: int| 0 <= i < first_line(b).len() - 1 ==> #[trigger] first_line(b)[i] != 10u8,
        (first_line(b).len() > 0 && first_line(b).last() == 10u8) || (first_line(b) == b && forall|
            i: int,
        | 0 <= i < b.len() ==> #[trigger] b[i] != 10u8),
    decreases b.len(),
{
    let l = first_line(b);
    if b.len() == 0 {
        assert(l =~= b.take(0));
    } else if b[0] == 10 {
        assert(l =~= b.take(1));
    } else {
        law_first_line(b.drop_first());
        let r = first_line(b.drop_first());
        assert(l == seq![b[0]] + r);
        assert(l =~= b.take(l.len() as int));
        assert forall|i: int| 0 <= i < l.len() - 1 implies #[trigger] l[i] != 10u8 by {
            if i > 0 {
                assert(l[i] == r[i - 1]);
            }
        }
        if !(r.len() > 0 && r.last() == 10u8) {
            assert(l =~= b);
            assert forall|i: int| 0 <= i < b.len() implies #[trigger] b[i] != 10u8 by {
                if i > 0 {
                    assert(b[i] == b.drop_first()[i - 1]);
                }
            }
        } else {
            assert(l.last() == r.last());
        }
    }
}


proof fn lemma_lower_letter(c: char, l: char)
    requires
        ascii_lower(c) == l,
        l == 'i' || l == 'n' || l == 'f' || l == 't' || l == 'y' || l == 'a',
    ensures
        c != ' ' && c != '"' && c != '+' && c != '-' && c != '=' && !is_digit(c),
{
}

/// The named floating-point values are literals too: an optional sign
/// followed by `inf`, `infinity` or `nan` in any mix of cases makes the
/// floating-point token of the whole word, and evaluating it displays that
/// value.
pub proof fn law_named_float_words(env: Map<Seq<char>, Value>, sign: Seq<char>, name: Seq<char>)
    requires
        is_sign(sign),
        lower(name) == seq!['i', 'n', 'f'] || lower(name) == seq!['i', 'n', 'f', 'i', 'n', 'i', 't', 'y']
            || lower(name) == seq!['n', 'a', 'n'],
    ensures
        ({
            let w = sign + name;
            &&& is_float_literal(w)
            &&& int_literal_value(w) is None
            &&& token_of(w) == (TokenModel { representation: w, kind: TokenKind::Float(w) })
            &&& !evaluation_aborts(w, env)
            &&& evaluation(w, env) == (
                Ok::<Option<Shown>, Seq<char>>(Some(Shown::Float(FloatValue::Literal(w)))),
                env,
            )
        }),
{
    let w = sign + name;
    assert(name.len() == lower(name).len());
    assert forall|j: int| 0 <= j < name.len() implies name[j] != ' ' && name[j] != '"' && name[j]
        != '+' && name[j] != '-' && name[j] != '=' && !is_digit(name[j]) by {
        assert(lower(name)[j] == ascii_lower(name[j]));
        lemma_lower_letter(name[j], lower(name)[j]);
    }
    assert(unsigned_part(w) =~= name) by {
        if sign.len() == 0 {
            assert(w =~= name);
        } else {
            assert(w.drop_first() =~= name);
        }
    }
    assert(!all_digits(name)) by {
        assert(!is_digit(name[0]));
    }
    assert forall|i: int| 0 <= i < w.len() implies w[i] != ' ' && w[i] != '"' by {
        if i < sign.len() {
            assert(w[i] == sign[0]);
        } else {
            assert(w[i] == name[i - sign.len()]);
        }
    }
    assert(w != seq!['+'] && w != seq!['=']) by {
        if w.len() == 1 {
            assert(w[0] == name[0]);
        }
    }
    lemma_plain_word(w);
    lemma_single_token(w);
}

/// The shape of every floating-point literal that is not a named value:
/// after its optional sign it is not empty, holds a digit, begins with a
/// digit or a point and ends with one, has at most one point and at most
/// one exponent marker, no point after the marker, and a sign only right
/// after the marker; every other character is a digit.
pub proof fn law_float_literal_shape(w: Seq<char>)
    requires
        is_float_literal(w),
        !is_special_float(unsigned_part(w)),
    ensures
        ({
            let b = unsigned_part(w);
            &&& b.len() > 0
            &&& exists|i: int| 0 <= i < b.len() && is_digit(#[trigger] b[i])
            &&& is_digit(b[0]) || b[0] == '.'
            &&& is_digit(b.last()) || b.last() == '.'
            &&& forall|i: int|
                0 <= i < b.len() ==> is_digit(#[trigger] b[i]) || b[i] == '.' || ascii_lower(b[i])
                    == 'e' || ((b[i] == '+' || b[i] == '-') && i > 0 && ascii_lower(b[i - 1]) == 'e')
            &&& forall|i: int, j: int|
                0 <= i < j < b.len() && #[trigger] b[i] == '.' ==> #[trigger] b[j] != '.'
            &&& forall|i: int, j: int|
                0 <= i < j < b.len() && ascii_lower(#[trigger] b[i]) == 'e' ==> ascii_lower(
                    #[trigger] b[j],
                ) != 'e' && b[j] != '.'
        }),
{
    let b = unsigned_part(w);
    assert(is_decimal_number(b));
    if is_mantissa(b) {
        let k = choose|i: int| 0 <= i < b.len() && is_digit(#[trigger] b[i]);
        assert(is_digit(b[0]) || b[0] == '.');
        assert(is_digit(b[b.len() - 1]) || b[b.len() - 1] == '.');
        assert forall|i: int| 0 <= i < b.len() && ascii_lower(#[trigger] b[i]) == 'e' implies false by {
            assert(is_digit(b[i]) || b[i] == '.');
        }
    } else {
        let p = choose|p: int|
            0 <= p < b.len() && ascii_lower(#[trigger] b[p]) == 'e' && is_mantissa(b.take(p))
                && is_exponent(b.skip(p + 1));
        let m = b.take(p);
        let x = b.skip(p + 1);
        let d = unsigned_part(x);
        let k = choose|i: int| 0 <= i < m.len() && is_digit(#[trigger] m[i]);
        assert(b[k] == m[k]);
        assert(b[0] == m[0]);
        assert(is_digit(m[0]) || m[0] == '.');
        let off: int = if has_sign(x) { 1 } else { 0 };
        assert(d =~= x.skip(off));
        assert(b.last() == d.last());
        assert(is_digit(d[d.len() - 1]));
        assert forall|i: int| 0 <= i < b.len() implies is_digit(#[trigger] b[i]) || b[i] == '.'
            || ascii_lower(b[i]) == 'e' || ((b[i] == '+' || b[i] == '-') && i > 0 && ascii_lower(
            b[i - 1],
        ) == 'e') by {
            if i < p {
                assert(b[i] == m[i]);
                assert(is_digit(m[i]) || m[i] == '.');
            } else if i > p {
                assert(b[i] == x[i - p - 1]);
                if i - p - 1 >= off {
                    assert(x[i - p - 1] == d[i - p - 1 - off]);
                    assert(is_digit(d[i - p - 1 - off]));
                }
            }
        }
        assert forall|i: int, j: int|
            0 <= i < j < b.len() && #[trigger] b[i] == '.' implies #[trigger] b[j] != '.' by {
            assert(i < p) by {
                if i > p {
                    assert(b[i] == x[i - p - 1]);
                    if i - p - 1 >= off {
                        assert(x[i - p - 1] == d[i - p - 1 - off]);
                        assert(is_digit(d[i - p - 1 - off]));
                    }
                }
            }
            if j < p {
                assert(b[i] == m[i] && b[j] == m[j]);
            } else if j > p {
                assert(b[j] == x[j - p - 1]);
                if j - p - 1 >= off {
                    assert(x[j - p - 1] == d[j - p - 1 - off]);
                    assert(is_digit(d[j - p - 1 - off]));
                }
            }
        }
        assert forall|i: int, j: int|
            0 <= i < j < b.len() && ascii_lower(#[trigger] b[i]) == 'e' implies ascii_lower(
            #[trigger] b[j],
        ) != 'e' && b[j] != '.' by {
            if i < p {
                assert(b[i] == m[i]);
                assert(is_digit(m[i]) || m[i] == '.');
            }
            if i > p {
                assert(b[i] == x[i - p - 1]);
                if i - p - 1 >= off {
                    assert(x[i - p - 1] == d[i - p - 1 - off]);
                    assert(is_digit(d[i - p - 1 - off]));
                }
            }
            assert(j > p);
            assert(b[j] == x[j - p - 1]);
            if j - p - 1 >= off {
                assert(x[j - p - 1] == d[j - p - 1 - off]);
                assert(is_digit(d[j - p - 1 - off]));
            } else {
                assert(x[0] == '+' || x[0] == '-');
            }
        }
    }
}


/// The line splitter run from the state `st` over `s`.
pub open spec fn line_scan_from(st: LineState, s: Seq<char>) -> LineState
    decreases s.len(),
{
    if s.len() == 0 {
        st
    } else {
        line_step(line_scan_from(st, s.drop_last()), s.last())
    }
}

/// `lines`, each followed by `end`.
pub open spec fn join_lines(lines: Seq<Seq<char>>, end: Seq<char>) -> Seq<char>
    decreases lines.len(),
{
    if lines.len() == 0 {
        Seq::empty()
    } else {
        join_lines(lines.drop_last(), end) + lines.last() + end
    }
}

proof fn lemma_line_scan_is_from(s: Seq<char>)
    ensures
        line_scan(s) == line_scan_from(LineState { lines: Seq::empty(), current: Seq::empty() }, s),
    decreases s.len(),
{
    if s.len() > 0 {
        lemma_line_scan_is_from(s.drop_last());
    }
}

proof fn lemma_line_scan_concat(st: LineState, a: Seq<char>, b: Seq<char>)
    ensures
        line_scan_from(st, a + b) == line_scan_from(line_scan_from(st, a), b),
    decreases b.len(),
{
    if b.len() == 0 {
        assert(a + b =~= a);
    } else {
        lemma_line_scan_concat(st, a, b.drop_last());
        assert((a + b).drop_last() =~= a + b.drop_last());
        assert((a + b).last() == b.last());
    }
}

proof fn lemma_line_scan_text(st: LineState, l: Seq<char>)
    requires
        forall|i: int| 0 <= i < l.len() ==> l[i] != '\n',
    ensures
        line_scan_from(st, l) == (LineState { lines: st.lines, current: st.current + l }),
    decreases l.len(),
{
    if l.len() == 0 {
        assert(line_scan_from(st, l) =~= LineState { lines: st.lines, current: st.current + l });
    } else {
        assert forall|i: int| 0 <= i < l.drop_last().len() implies l.drop_last()[i] != '\n' by {
            assert(l.drop_last()[i] == l[i]);
        }
        lemma_line_scan_text(st, l.drop_last());
        assert(l.last() == l[l.len() - 1]);
        assert((st.current + l.drop_last()).push(l.last()) =~= st.current + l);
        assert(line_scan_from(st, l) =~= LineState { lines: st.lines, current: st.current + l });
    }
}

/// Lines without newlines, and not ending with a carriage return.
pub open spec fn plain_lines(lines: Seq<Seq<char>>) -> bool {
    forall|k: int, i: int|
        0 <= k < lines.len() && 0 <= i < lines[k].len() ==> #[trigger] lines[k][i] != '\n'
            && !(i == lines[k].len() - 1 && lines[k][i] == '\r')
}

proof fn lemma_join_lines_scan(lines: Seq<Seq<char>>, crlf: bool)
    requires
        plain_lines(lines),
    ensures
        line_scan(join_lines(lines, if crlf { seq!['\r', '\n'] } else { seq!['\n'] })) == (LineState {
            lines: lines,
            current: Seq::empty(),
        }),
    decreases lines.len(),
{
    let end = if crlf { seq!['\r', '\n'] } else { seq!['\n'] };
    let init = LineState { lines: Seq::empty(), current: Seq::empty() };
    let j = join_lines(lines, end);
    if lines.len() == 0 {
        assert(line_scan(j) =~= LineState { lines: lines, current: Seq::empty() });
    } else {
        let rest = lines.drop_last();
        let l = lines.last();
        assert(plain_lines(rest)) by {
            assert forall|k: int, i: int|
                0 <= k < rest.len() && 0 <= i < rest[k].len() implies #[trigger] rest[k][i] != '\n'
                && !(i == rest[k].len() - 1 && rest[k][i] == '\r') by {
                assert(rest[k] == lines[k]);
            }
        }
        lemma_join_lines_scan(rest, crlf);
        let jr = join_lines(rest, end);
        lemma_line_scan_is_from(j);
        lemma_line_scan_is_from(jr);
        lemma_line_scan_concat(init, jr + l, end);
        lemma_line_scan_concat(init, jr, l);
        let st1 = line_scan_from(init, jr);
        assert(st1 == LineState { lines: rest, current: Seq::<char>::empty() });
        assert forall|i: int| 0 <= i < l.len() implies l[i] != '\n' by {
            assert(l == lines[lines.len() - 1]);
            assert(lines[lines.len() - 1][i] != '\n');
        }
        lemma_line_scan_text(st1, l);
        let st2 = line_scan_from(st1, l);
        assert(Seq::<char>::empty() + l =~= l);
        assert(st2 == LineState { lines: rest, current: l });
        assert(without_cr(l) == l) by {
            if l.len() > 0 {
                assert(l == lines[lines.len() - 1]);
                assert(!(lines[lines.len() - 1][l.len() - 1] == '\r'));
            }
        }
        assert(rest.push(l) =~= lines);
        if crlf {
            assert(end.drop_last() =~= seq!['\r']);
            assert(seq!['\r'].drop_last() =~= Seq::<char>::empty());
            assert(line_scan_from(st2, Seq::<char>::empty()) == st2);
            let st3 = line_scan_from(st2, seq!['\r']);
            assert(st3 =~= LineState { lines: rest, current: l.push('\r') });
            assert(without_cr(l.push('\r')) =~= l);
            assert(line_scan_from(st2, end) =~= LineState { lines: lines, current: Seq::empty() });
        } else {
            assert(end.drop_last() =~= Seq::<char>::empty());
            assert(line_scan_from(st2, Seq::<char>::empty()) == st2);
            assert(line_scan_from(st2, end) =~= LineState { lines: lines, current: Seq::empty() });
        }
        assert(jr + l + end =~= j);
    }
}

/// Splitting gives back the lines that were joined: lines with no newline
/// and no carriage return at their end, each ended by a newline (or by a
/// carriage return and a newline), split into exactly those lines; and so
/// do they where the last line, not empty, has no ending at all.
pub proof fn law_lines_round_trip(lines: Seq<Seq<char>>)
    requires
        plain_lines(lines),
    ensures
        lines_of(join_lines(lines, seq!['\n'])) == lines,
        lines_of(join_lines(lines, seq!['\r', '\n'])) == lines,
        lines.len() > 0 && lines.last().len() > 0 ==> lines_of(
            join_lines(lines.drop_last(), seq!['\n']) + lines.last(),
        ) == lines,
{
    lemma_join_lines_scan(lines, false);
    lemma_join_lines_scan(lines, true);
    if lines.len() > 0 && lines.last().len() > 0 {
        let rest = lines.drop_last();
        let l = lines.last();
        let init = LineState { lines: Seq::empty(), current: Seq::empty() };
        assert(plain_lines(rest)) by {
            assert forall|k: int, i: int|
                0 <= k < rest.len() && 0 <= i < rest[k].len() implies #[trigger] rest[k][i] != '\n'
                && !(i == rest[k].len() - 1 && rest[k][i] == '\r') by {
                assert(rest[k] == lines[k]);
            }
        }
        lemma_join_lines_scan(rest, false);
        let jr = join_lines(rest, seq!['\n']);
        lemma_line_scan_is_from(jr + l);
        lemma_line_scan_is_from(jr);
        lemma_line_scan_concat(init, jr, l);
        assert forall|i: int| 0 <= i < l.len() implies l[i] != '\n' by {
            assert(l == lines[lines.len() - 1]);
            assert(lines[lines.len() - 1][i] != '\n');
        }
        lemma_line_scan_text(line_scan_from(init, jr), l);
        assert(Seq::<char>::empty() + l =~= l);
        assert(rest.push(l) =~= lines);
    }
}


proof fn lemma_trim_start_removed(s: Seq<char>)
    ensures
        forall|k: int| 0 <= k < s.len() - trim_start(s).len() ==> is_white_space(#[trigger] s[k]),
    decreases s.len(),
{
    if s.len() > 0 && is_white_space(s[0]) {
        lemma_trim_start_removed(s.drop_first());
        assert forall|k: int| 0 <= k < s.len() - trim_start(s).len() implies is_white_space(
            #[trigger] s[k],
        ) by {
            if k > 0 {
                assert(s[k] == s.drop_first()[k - 1]);
            }
        }
    }
}

proof fn lemma_trim_end_removed(s: Seq<char>)
    ensures
        forall|k: int| trim_end(s).len() <= k < s.len() ==> is_white_space(#[trigger] s[k]),
    decreases s.len(),
{
    if s.len() > 0 && is_white_space(s.last()) {
        lemma_trim_end_removed(s.drop_last());
        assert forall|k: int| trim_end(s).len() <= k < s.len() implies is_white_space(
            #[trigger] s[k],
        ) by {
            if k < s.len() - 1 {
                assert(s[k] == s.drop_last()[k]);
            }
        }
    }
}

/// Trimming removes white space from both ends and nothing else: the
/// result is a stretch of the text, every character before and after it is
/// white space, and it neither begins nor ends with white space.
pub proof fn law_trim_removes_surrounding_white_space(s: Seq<char>)
    ensures
        exists|i: int, j: int|
            #![trigger s.subrange(i, j)]
            {
                &&& 0 <= i <= j <= s.len()
                &&& trim(s) == s.subrange(i, j)
                &&& forall|k: int| 0 <= k < i ==> is_white_space(#[trigger] s[k])
                &&& forall|k: int| j <= k < s.len() ==> is_white_space(#[trigger] s[k])
                &&& j > i ==> !is_white_space(s[i]) && !is_white_space(s[j - 1])
            },
{
    let a = trim_start(s);
    lemma_trim_start(s);
    lemma_trim_start_removed(s);
    lemma_trim_end(a);
    lemma_trim_end_removed(a);
    let i = s.len() - a.len();
    let t = trim_end(a);
    let j = i + t.len();
    assert(trim(s) =~= s.subrange(i, j));
    assert forall|k: int| j <= k < s.len() implies is_white_space(#[trigger] s[k]) by {
        assert(s[k] == a[k - i]);
    }
    if j > i {
        assert(s[i] == a[0]);
        assert(t[0] == a[0]);
        assert(s[j - 1] == t[t.len() - 1]);
    }
}

/// Evaluation leaves the environment as it was unless it answers nothing,
/// which only an assignment does; in particular a refused expression
/// changes nothing.
pub proof fn law_only_assignment_changes_environment(e: Seq<char>, env: Map<Seq<char>, Value>)
    ensures
        evaluation(e, env).0 != Ok::<Option<Shown>, Seq<char>>(None) ==> evaluation(e, env).1 == env,
        evaluation(e, env).0 is Err ==> evaluation(e, env).1 == env,
        evaluation(e, env).0 == Ok::<Option<Shown>, Seq<char>>(None) ==> {
            &&& tokens_of(e).len() == 3
            &&& tokens_of(e)[1].kind is Assign
            &&& evaluation(e, env).1 == env.insert(
                tokens_of(e)[0].representation,
                token_value(tokens_of(e)[2], env)->Ok_0,
            )
        },
{
}

proof fn lemma_digit_char(k: nat)
    requires
        k < 10,
    ensures
        digit_char(k) as nat == 48 + k,
        is_digit(digit_char(k)),
{
}

proof fn lemma_decimal(n: nat)
    ensures
        decimal(n).len() > 0,
        all_digits(decimal(n)),
        digits_value(decimal(n)) == n,
    decreases n,
{
    if n < 10 {
        lemma_digit_char(n);
        assert(decimal(n).drop_last() =~= Seq::<char>::empty());
        assert(digits_value(Seq::<char>::empty()) == 0);
        assert(decimal(n).last() == digit_char(n));
    } else {
        lemma_digit_char(n % 10);
        lemma_decimal(n / 10);
        let d = decimal(n);
        assert(d.last() == digit_char(n % 10));
        assert(d.drop_last() =~= decimal(n / 10));
        assert(digits_value(d) == digits_value(decimal(n / 10)) * 10 + n % 10);
        assert((n / 10) * 10 + n % 10 == n);
        assert forall|i: int| 0 <= i < d.len() implies #[trigger] is_digit(d[i]) by {
            if i < d.len() - 1 {
                assert(d[i] == decimal(n / 10)[i]);
            }
        }
    }
}

/// What is displayed for an integer reads back as that integer: its text is
/// a word that `i64` parses to the same value, so it makes an integer token.
pub proof fn law_integer_text_round_trip(v: i64)
    ensures
        int_literal_value(int_text(v as int)) == Some(v),
        token_of(int_text(v as int)).kind == TokenKind::Int(v),
{
    let t = int_text(v as int);
    if v < 0 {
        let m = (-v) as nat;
        lemma_decimal(m);
        assert(has_sign(t));
        assert(unsigned_part(t) =~= decimal(m));
    } else {
        lemma_decimal(v as nat);
        assert(!has_sign(t)) by {
            assert(is_digit(t[0]));
        }
    }
    assert(t != seq!['+'] && t != seq!['=']) by {
        if t == seq!['+'] || t == seq!['='] {
            assert(!has_sign(unsigned_part(t)) || unsigned_part(t).len() == 0);
        }
    }
}

proof fn lemma_scan_words(s: Seq<char>)
    ensures
        forall|i: int| 0 <= i < scan(s).words.len() ==> #[trigger] scan(s).words[i].len() > 0,
        (forall|i: int| 0 <= i < s.len() ==> s[i] != '"') ==> {
            &&& !scan(s).quoted
            &&& forall|j: int| 0 <= j < scan(s).current.len() ==> scan(s).current[j] != ' '
            &&& forall|i: int, j: int|
                0 <= i < scan(s).words.len() && 0 <= j < scan(s).words[i].len() ==> #[trigger] scan(
                    s,
                ).words[i][j] != ' '
        },
    decreases s.len(),
{
    if s.len() > 0 {
        lemma_scan_words(s.drop_last());
        let inner = scan(s.drop_last());
        assert forall|i: int| 0 <= i < scan(s).words.len() implies #[trigger] scan(s).words[i].len()
            > 0 by {
            if i < inner.words.len() {
                assert(scan(s).words[i] == inner.words[i]);
            }
        }
        if forall|i: int| 0 <= i < s.len() ==> s[i] != '"' {
            assert forall|i: int| 0 <= i < s.drop_last().len() implies s.drop_last()[i] != '"' by {
                assert(s.drop_last()[i] == s[i]);
            }
            assert(s.last() == s[s.len() - 1]);
        }
    }
}

/// Words are never empty, and in an expression without double quotes no
/// word holds a space: the words are then the maximal runs of non-space
/// characters.
pub proof fn law_words_are_nonempty_runs(s: Seq<char>)
    ensures
        forall|i: int| 0 <= i < words(s).len() ==> #[trigger] words(s)[i].len() > 0,
        (forall|i: int| 0 <= i < s.len() ==> s[i] != '"') ==> forall|i: int, j: int|
            0 <= i < words(s).len() && 0 <= j < words(s)[i].len() ==> #[trigger] words(s)[i][j]
                != ' ',
{
    lemma_scan_words(s);
}

proof fn lemma_trim_start(s: Seq<char>)
    ensures
        trim_start(s).len() > 0 ==> !is_white_space(trim_start(s)[0]),
        trim_start(s) == s.skip(s.len() - trim_start(s).len()),
        trim_start(s).len() <= s.len(),
    decreases s.len(),
{
    if s.len() > 0 && is_white_space(s[0]) {
        lemma_trim_start(s.drop_first());
        assert(s.drop_first().skip(s.drop_first().len() - trim_start(s).len()) =~= s.skip(
            s.len() - trim_start(s).len(),
        ));
    } else {
        assert(s.skip(0) =~= s);
    }
}

proof fn lemma_trim_end(s: Seq<char>)
    ensures
        trim_end(s).len() > 0 ==> !is_white_space(trim_end(s).last()),
        trim_end(s) == s.take(trim_end(s).len() as int),
        trim_end(s).len() <= s.len(),
    decreases s.len(),
{
    if s.len() > 0 && is_white_space(s.last()) {
        lemma_trim_end(s.drop_last());
        assert(s.drop_last().take(trim_end(s).len() as int) =~= s.take(trim_end(s).len() as int));
    } else {
        assert(s.take(s.len() as int) =~= s);
    }
}

proof fn lemma_trim_start_of_clean(s: Seq<char>)
    requires
        s.len() > 0 ==> !is_white_space(s[0]),
    ensures
        trim_start(s) == s,
{
}

proof fn lemma_trim_end_of_clean(s: Seq<char>)
    requires
        s.len() > 0 ==> !is_white_space(s.last()),
    ensures
        trim_end(s) == s,
{
}

/// A trimmed text neither begins nor ends with white space, and trimming it
/// again changes nothing: the expression read from a line is the line's
/// text without its surrounding white space.
pub proof fn law_trim_is_clean(s: Seq<char>)
    ensures
        trim(s).len() > 0 ==> !is_white_space(trim(s)[0]) && !is_white_space(trim(s).last()),
        trim(trim(s)) == trim(s),
{
    let a = trim_start(s);
    lemma_trim_start(s);
    lemma_trim_end(a);
    let t = trim_end(a);
    if t.len() > 0 {
        assert(t[0] == a[0]);
    }
    lemma_trim_start_of_clean(t);
    lemma_trim_end_of_clean(t);
}

} // verus!
