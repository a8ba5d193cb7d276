//! The byte-level side of a session: the prompt, reading one line of input,
//! and the output of a batch of expressions or of one interactive step.
use vstd::prelude::*;
use vstd::string::{StringExecFns, StringSliceAdditionalSpecFns};
use vstd::utf8::{decode_utf8, encode_utf8, valid_utf8, encode_utf8_decode_utf8};
use crate::environment::Environment;
use crate::eval::{evaluate, evaluation, evaluation_aborts, reports};
use crate::object::{shows_as, FloatTerm, Shown, Value};
use crate::text::{chars_of, string_of, trim, trim_chars};

verus! {

/// The error type of `std::str::from_utf8`, declared so that it can be named.
#[verifier::external_type_specification]
#[verifier::external_body]
pub struct ExUtf8Error(std::str::Utf8Error);

/// `std::str::from_utf8`: the bytes as text where they are valid UTF-8, an
/// error where they are not. The contract states that it succeeds exactly
/// on valid UTF-8 and that the text it gives is made of exactly those bytes.
#[verifier::external_body]
fn utf8_text(bytes: &[u8]) -> (r: Result<&str, std::str::Utf8Error>)
    ensures
        r is Ok <==> valid_utf8(bytes@),
        r matches Ok(s) ==> s.spec_bytes() == bytes@,
{
    std::str::from_utf8(bytes)
}

/// The prompt written before each expression is read.
pub open spec fn prompt_text() -> Seq<char> {
    ">> "@
}

/// Appends the UTF-8 bytes of `s` to `writer`.
fn write_str(writer: &mut Vec<u8>, s: &str)
    ensures
        final(writer)@ == old(writer)@ + encode_utf8(s@),
{
    let bytes = s.as_bytes();
    let n = bytes.len();
    let ghost start = writer@;
    let mut i: usize = 0;
    while i < n
        invariant
            i <= n == bytes@.len(),
            bytes@ == encode_utf8(s@),
            writer@ == start + bytes@.take(i as int),
        decreases n - i,
    {
        writer.push(bytes[i]);
        i = i + 1;
        assert(writer@ =~= start + bytes@.take(i as int));
    }
    assert(bytes@.take(n as int) =~= bytes@);
}

/// Writes the prompt `prompt` to `writer`.
pub fn display_prompt(prompt: &str, writer: &mut Vec<u8>)
    ensures
        final(writer)@ == old(writer)@ + encode_utf8(prompt@),
{
    write_str(writer, prompt);
}

/// The first line of `bytes`: up to and including the first newline, or all
/// of it where there is none.
pub open spec fn first_line(bytes: Seq<u8>) -> Seq<u8>
    decreases bytes.len(),
{
    if bytes.len() == 0 {
        Seq::empty()
    } else if bytes[0] == 10 {
        seq![10u8]
    } else {
        seq![bytes[0]] + first_line(bytes.drop_first())
    }
}

/// Takes the first line off the front of `reader`.
pub fn take_line(reader: &mut &[u8]) -> (line: Vec<u8>)
    ensures
        line@ == first_line(old(reader)@),
        final(reader)@ == old(reader)@.skip(line@.len() as int),
{
    let ghost b = reader@;
    let n = reader.len();
    let mut k: usize = 0;
    assert(b.skip(0) =~= b);
    assert(b.take(0) =~= Seq::<u8>::empty());
    while k < n && reader[k] != 10u8
        invariant
            k <= n == b.len(),
            reader@ == b,
            first_line(b) == b.take(k as int) + first_line(b.skip(k as int)),
        decreases n - k,
    {
        assert(b.skip(k as int).drop_first() =~= b.skip(k + 1));
        assert(b.take(k + 1) =~= b.take(k as int) + seq![b[k as int]]);
        k = k + 1;
    }
    let end = if k < n {
        k + 1
    } else {
        k
    };
    proof {
        if k < n {
            assert(first_line(b.skip(k as int)) =~= seq![10u8]);
            assert(b.take(end as int) =~= b.take(k as int) + seq![10u8]);
        } else {
            assert(b.skip(k as int) =~= Seq::<u8>::empty());
            assert(b.take(k as int) =~= b.take(end as int));
        }
    }
    let (a, rest) = reader.split_at(end);
    let mut line: Vec<u8> = Vec::new();
    line.extend_from_slice(a);
    *reader = rest;
    assert(line@ =~= first_line(b));
    assert(rest@ =~= b.skip(end as int));
    line
}

/// The expression a line of input holds: the line as text, without leading
/// and trailing white space (its newline among it).
pub fn expression_from_line(line: &[u8]) -> (e: String)
    requires
        valid_utf8(line@),
    ensures
        e@ == trim(decode_utf8(line@)),
{
    match utf8_text(line) {
        Ok(s) => {
            proof {
                encode_utf8_decode_utf8(s@);
            }
            let chars = chars_of(s);
            string_of(&trim_chars(&chars))
        },
        Err(_) => {
            assert(false);
            String::new()
        },
    }
}

/// Writes the prompt `>> ` to `writer`, then reads one line from `reader`
/// and gives the expression it holds.
pub fn read_expression(writer: &mut Vec<u8>, reader: &mut &[u8]) -> (e: String)
    requires
        valid_utf8(first_line(old(reader)@)),
    ensures
        final(writer)@ == old(writer)@ + encode_utf8(prompt_text()),
        final(reader)@ == old(reader)@.skip(first_line(old(reader)@).len() as int),
        e@ == trim(decode_utf8(first_line(old(reader)@))),
{
    let prompt = ">> ";
    display_prompt(prompt, writer);
    let line = take_line(reader);
    expression_from_line(line.as_slice())
}

/// Whether `expression` ends the session: it is `quit`.
pub fn is_terminator(expression: &str) -> (b: bool)
    ensures
        b == (expression@ == "quit"@),
{
    let e = chars_of(expression);
    let q = chars_of("quit");
    if e.len() != q.len() {
        return false;
    }
    let mut i: usize = 0;
    while i < e.len()
        invariant
            e@ == expression@,
            q@ == "quit"@,
            e@.len() == q@.len(),
            i <= e@.len(),
            forall|j: int| 0 <= j < i ==> e@[j] == q@[j],
        decreases e@.len() - i,
    {
        if e[i] != q[i] {
            return false;
        }
        i = i + 1;
    }
    assert(e@ =~= q@);
    true
}

/// What one interactive step does with an expression.
pub enum Reply {
    /// End the session.
    Quit,
    /// Write the value's display on a line of its own.
    Value(String),
    /// Write nothing.
    Nothing,
    /// Report the error.
    Error(String),
}

/// One interactive step: `quit` ends the session; any other expression is
/// evaluated, and its display, nothing (for an assignment), or its error is
/// what the step answers.
pub fn respond<F: Fn(&FloatTerm) -> String>(
    expression: &str,
    environment: &mut Environment,
    float_text: &F,
) -> (r: Reply)
    requires
        forall|t: &FloatTerm| float_text.requires((t,)),
        expression@ != "quit"@ ==> !evaluation_aborts(expression@, old(environment)@),
    ensures
        expression@ == "quit"@ ==> r is Quit && final(environment)@ == old(environment)@,
        expression@ != "quit"@ ==> {
            &&& final(environment)@ == evaluation(expression@, old(environment)@).1
            &&& reports(
                *float_text,
                evaluation(expression@, old(environment)@).0,
                match r {
                    Reply::Value(v) => Ok(Some(v)),
                    Reply::Error(e) => Err(e),
                    _ => Ok(None),
                },
            )
            &&& !(r is Quit)
        },
{
    if is_terminator(expression) {
        return Reply::Quit;
    }
    match evaluate(expression, environment, float_text) {
        Ok(Some(result)) => Reply::Value(result),
        Ok(None) => Reply::Nothing,
        Err(error) => Reply::Error(error),
    }
}

/// The environment after evaluating the first `i` of `lines`, one after
/// the other, from `env`.
pub open spec fn environment_after(
    lines: Seq<Seq<char>>,
    env: Map<Seq<char>, Value>,
    i: int,
) -> Map<Seq<char>, Value>
    decreases i,
{
    if i <= 0 {
        env
    } else {
        evaluation(lines[i - 1], environment_after(lines, env, i - 1)).1
    }
}

/// Whether evaluating `lines` one after the other from `env` cannot complete.
pub open spec fn batch_aborts(lines: Seq<Seq<char>>, env: Map<Seq<char>, Value>) -> bool {
    exists|i: int| 0 <= i < lines.len() && evaluation_aborts(lines[i], #[trigger] environment_after(lines, env, i))
}

/// `out` is what a batch writes for one expression whose result is `s`: a
/// displayed value on a line of its own, nothing for an assignment, and an
/// error as `Error: ` and the message on a line of its own.
pub open spec fn batch_output<F: Fn(&FloatTerm) -> String>(
    float_text: F,
    s: Result<Option<Shown>, Seq<char>>,
    out: Seq<u8>,
) -> bool {
    match s {
        Ok(None) => out == Seq::<u8>::empty(),
        Ok(Some(sh)) => exists|t: Seq<char>| shows_as(float_text, sh, t) && out == encode_utf8(#[trigger] t.push('\n')),
        Err(m) => out == encode_utf8("Error: "@ + m + seq!['\n']),
    }
}

/// All of `outs`, one after the other.
pub open spec fn concat_all(outs: Seq<Seq<u8>>) -> Seq<u8>
    decreases outs.len(),
{
    if outs.len() == 0 {
        Seq::empty()
    } else {
        concat_all(outs.drop_last()) + outs.last()
    }
}

/// `written` is what a batch writes for `lines` evaluated one after the
/// other from `env`: the outputs of the lines, in order.
pub open spec fn batch_writes<F: Fn(&FloatTerm) -> String>(
    float_text: F,
    lines: Seq<Seq<char>>,
    env: Map<Seq<char>, Value>,
    written: Seq<u8>,
) -> bool {
    exists|outs: Seq<Seq<u8>>|
        {
            &&& outs.len() == lines.len()
            &&& forall|i: int|
                0 <= i < outs.len() ==> batch_output(
                    float_text,
                    evaluation(lines[i], environment_after(lines, env, i)).0,
                    #[trigger] outs[i],
                )
            &&& written == #[trigger] concat_all(outs)
        }
}

pub open spec fn views_of(lines: Seq<String>) -> Seq<Seq<char>> {
    lines.map_values(|l: String| l@)
}

/// The state of the line splitter: the lines so far and the line being read.
#[verifier::ext_equal]
pub struct LineState {
    pub lines: Seq<Seq<char>>,
    pub current: Seq<char>,
}

/// A line without the carriage return that ends it, if it has one.
pub open spec fn without_cr(l: Seq<char>) -> Seq<char> {
    if l.len() > 0 && l.last() == '\r' {
        l.drop_last()
    } else {
        l
    }
}

/// One character of the line splitter: a newline ends the line (dropping a
/// carriage return just before it); every other character joins the line.
pub open spec fn line_step(st: LineState, c: char) -> LineState {
    if c == '\n' {
        LineState { lines: st.lines.push(without_cr(st.current)), current: Seq::empty() }
    } else {
        LineState { lines: st.lines, current: st.current.push(c) }
    }
}

pub open spec fn line_scan(s: Seq<char>) -> LineState
    decreases s.len(),
{
    if s.len() == 0 {
        LineState { lines: Seq::empty(), current: Seq::empty() }
    } else {
        line_step(line_scan(s.drop_last()), s.last())
    }
}

/// The lines of a text, as `str::lines` gives them: split at each newline,
/// a carriage return before a newline dropped, and the last line given only
/// where it is not empty (a final newline makes no empty last line).
pub open spec fn lines_of(s: Seq<char>) -> Seq<Seq<char>> {
    let st = line_scan(s);
    if st.current.len() > 0 {
        st.lines.push(st.current)
    } else {
        st.lines
    }
}

/// The line `l` without its carriage return, if it ends with one.
fn strip_cr(l: Vec<char>) -> (r: Vec<char>)
    ensures
        r@ == without_cr(l@),
{
    let mut l = l;
    if l.len() > 0 && l[l.len() - 1] == '\r' {
        l.pop();
    }
    l
}

/// Splits a text into its lines.
pub fn split_lines(text: &str) -> (lines: Vec<String>)
    ensures
        lines@.len() == lines_of(text@).len(),
        forall|i: int| 0 <= i < lines@.len() ==> #[trigger] lines@[i]@ == lines_of(text@)[i],
{
    let s = chars_of(text);
    let ghost t = text@;
    let n = s.len();
    let mut lines: Vec<String> = Vec::new();
    let mut current: Vec<char> = Vec::new();
    let mut i: usize = 0;
    assert(t.take(0) =~= Seq::<char>::empty());
    while i < n
        invariant
            s@ == t,
            n == t.len(),
            i <= n,
            lines@.len() == line_scan(t.take(i as int)).lines.len(),
            forall|j: int|
                0 <= j < lines@.len() ==> #[trigger] lines@[j]@ == line_scan(t.take(i as int)).lines[j],
            current@ == line_scan(t.take(i as int)).current,
        decreases n - i,
    {
        let c = s[i];
        assert(t.take(i + 1).drop_last() =~= t.take(i as int));
        if c == '\n' {
            let done = strip_cr(current);
            lines.push(string_of(&done));
            current = Vec::new();
        } else {
            current.push(c);
        }
        i = i + 1;
    }
    assert(t.take(n as int) =~= t);
    if current.len() > 0 {
        lines.push(string_of(&current));
    }
    lines
}

/// Evaluates `lines` one after the other, writing to `writer` each value
/// displayed and each error.
pub fn process_file<F: Fn(&FloatTerm) -> String>(
    lines: &[String],
    writer: &mut Vec<u8>,
    environment: &mut Environment,
    float_text: &F,
)
    requires
        forall|t: &FloatTerm| float_text.requires((t,)),
        !batch_aborts(views_of(lines@), old(environment)@),
    ensures
        final(environment)@ == environment_after(views_of(lines@), old(environment)@, lines@.len() as int),
        exists|written: Seq<u8>|
            final(writer)@ == old(writer)@ + written && #[trigger] batch_writes(
                *float_text,
                views_of(lines@),
                old(environment)@,
                written,
            ),
{
    let ghost ls = views_of(lines@);
    let ghost env0 = environment@;
    let ghost w0 = writer@;
    let ghost mut outs: Seq<Seq<u8>> = Seq::empty();
    let n = lines.len();
    let mut i: usize = 0;
    while i < n
        invariant
            i <= n == lines@.len(),
            ls == views_of(lines@),
            !batch_aborts(ls, env0),
            forall|t: &FloatTerm| float_text.requires((t,)),
            environment@ == environment_after(ls, env0, i as int),
            outs.len() == i,
            forall|j: int|
                0 <= j < i ==> batch_output(
                    *float_text,
                    evaluation(lines@[j]@, environment_after(ls, env0, j)).0,
                    #[trigger] outs[j],
                ),
            writer@ == w0 + concat_all(outs),
        decreases n - i,
    {
        let expression = lines[i].as_str();
        assert(ls[i as int] == lines@[i as int]@);
        assert(!evaluation_aborts(ls[i as int], environment_after(ls, env0, i as int)));
        let ghost before = writer@;
        let ghost old_outs = outs;
        let ghost s = evaluation(lines@[i as int]@, environment_after(ls, env0, i as int)).0;
        let result = evaluate(expression, environment, float_text);
        match result {
            Ok(Some(text)) => {
                let mut line = text.clone();
                line.append("\n");
                proof {
                    reveal_strlit("\n");
                    assert(line@ == text@.push('\n'));
                }
                write_str(writer, line.as_str());
                proof {
                    assert(batch_output(*float_text, s, encode_utf8(line@)));
                    outs = outs.push(encode_utf8(line@));
                }
            },
            Ok(None) => {
                proof {
                    outs = outs.push(Seq::empty());
                    assert(writer@ =~= before + Seq::<u8>::empty());
                }
            },
            Err(error) => {
                let mut line = "Error: ".to_owned();
                line.append(error.as_str());
                line.append("\n");
                proof {
                    reveal_strlit("\n");
                    assert(line@ =~= "Error: "@ + error@ + seq!['\n']);
                }
                write_str(writer, line.as_str());
                proof {
                    outs = outs.push(encode_utf8(line@));
                }
            },
        }
        proof {
            assert(outs.drop_last() =~= old_outs);
            assert(writer@ == before + outs.last());
            assert(writer@ =~= w0 + concat_all(outs));
        }
        i = i + 1;
    }
    assert(ls == views_of(lines@));
    assert forall|j: int| 0 <= j < outs.len() implies batch_output(
        *float_text,
        evaluation(ls[j], environment_after(ls, env0, j)).0,
        #[trigger] outs[j],
    ) by {
        assert(ls[j] == lines@[j]@);
    }
    assert(batch_writes(*float_text, ls, env0, concat_all(outs)));
}

} // verus!
