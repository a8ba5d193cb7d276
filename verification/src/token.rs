//! The lexer: splitting an expression into words and classifying each word
//! as an operator, a literal or an identifier.
use vstd::prelude::*;
use crate::number::{int_literal_value, is_float_literal, parse_int, is_float_text};
use crate::text::{chars_of, string_of};

verus! {

#[derive(Debug, Clone, Copy, PartialEq, Eq)]
pub enum OperatorType {
    Add,
    Assign,
}

/// A literal's value. A floating-point literal keeps its text: its value is
/// the `f64` that the text parses to, and floating-point numbers are not
/// computed in this library (see `FloatTerm`).
#[derive(Debug, Clone, PartialEq)]
pub enum LiteralValue {
    Int(i64),
    Float(String),
    String(String),
}

#[derive(Debug, Clone, PartialEq)]
pub enum OperandType {
    Literal(LiteralValue),
    Identifier,
}

#[derive(Debug, Clone, PartialEq)]
pub enum TokenType {
    Operator(OperatorType),
    Operand(OperandType),
}

#[derive(Debug, Clone, PartialEq)]
pub struct Token {
    pub representation: String,
    pub token_type: TokenType,
}

/// What a token is, as a mathematical value.
pub enum TokenKind {
    Add,
    Assign,
    Int(i64),
    /// A floating-point literal, by its text.
    Float(Seq<char>),
    Str(Seq<char>),
    Identifier,
}

pub struct TokenModel {
    pub representation: Seq<char>,
    pub kind: TokenKind,
}

impl View for TokenType {
    type V = TokenKind;

    open spec fn view(&self) -> TokenKind {
        match self {
            TokenType::Operator(OperatorType::Add) => TokenKind::Add,
            TokenType::Operator(OperatorType::Assign) => TokenKind::Assign,
            TokenType::Operand(OperandType::Literal(LiteralValue::Int(v))) => TokenKind::Int(*v),
            TokenType::Operand(OperandType::Literal(LiteralValue::Float(t))) => TokenKind::Float(
                t@,
            ),
            TokenType::Operand(OperandType::Literal(LiteralValue::String(s))) => TokenKind::Str(
                s@,
            ),
            TokenType::Operand(OperandType::Identifier) => TokenKind::Identifier,
        }
    }
}

impl View for Token {
    type V = TokenModel;

    open spec fn view(&self) -> TokenModel {
        TokenModel { representation: self.representation@, kind: self.token_type@ }
    }
}

/// A word that starts and ends with a double quote and has room for both.
pub open spec fn is_quoted(w: Seq<char>) -> bool {
    w.len() >= 2 && w[0] == '"' && w.last() == '"'
}

/// The one word that cannot be made a token: a single double quote, which
/// starts and ends with a quote but has nothing between them.
pub open spec fn is_lone_quote(w: Seq<char>) -> bool {
    w == seq!['"']
}

/// The token a word makes: `+` and `=` are operators; then, in this order,
/// a word that `i64` parses is an integer literal, one that `f64` parses is a
/// floating-point literal, one in double quotes is a string literal (its
/// representation is the text between the quotes); anything else is an
/// identifier.
pub open spec fn token_of(w: Seq<char>) -> TokenModel {
    if w == seq!['+'] {
        TokenModel { representation: w, kind: TokenKind::Add }
    } else if w == seq!['='] {
        TokenModel { representation: w, kind: TokenKind::Assign }
    } else if int_literal_value(w) is Some {
        TokenModel { representation: w, kind: TokenKind::Int(int_literal_value(w)->0) }
    } else if is_float_literal(w) {
        TokenModel { representation: w, kind: TokenKind::Float(w) }
    } else if is_quoted(w) {
        let inner = w.subrange(1, w.len() - 1);
        TokenModel { representation: inner, kind: TokenKind::Str(inner) }
    } else {
        TokenModel { representation: w, kind: TokenKind::Identifier }
    }
}

/// The state of the word splitter: the words so far, the word being read,
/// and whether a double quote is open.
#[verifier::ext_equal]
pub struct ScanState {
    pub words: Seq<Seq<char>>,
    pub current: Seq<char>,
    pub quoted: bool,
}

/// One character of the splitter: a double quote joins the word and opens
/// or closes a quotation; a space outside quotes ends a non-empty word;
/// every other character joins the word.
pub open spec fn scan_step(st: ScanState, c: char) -> ScanState {
    if c == '"' {
        ScanState { words: st.words, current: st.current.push(c), quoted: !st.quoted }
    } else if c == ' ' && !st.quoted {
        if st.current.len() > 0 {
            ScanState { words: st.words.push(st.current), current: Seq::empty(), quoted: st.quoted }
        } else {
            st
        }
    } else {
        ScanState { words: st.words, current: st.current.push(c), quoted: st.quoted }
    }
}

pub open spec fn scan(s: Seq<char>) -> ScanState
    decreases s.len(),
{
    if s.len() == 0 {
        ScanState { words: Seq::empty(), current: Seq::empty(), quoted: false }
    } else {
        scan_step(scan(s.drop_last()), s.last())
    }
}

/// The words of an expression: split at spaces outside double quotes,
/// empty words dropped.
pub open spec fn words(s: Seq<char>) -> Seq<Seq<char>> {
    let st = scan(s);
    if st.current.len() > 0 {
        st.words.push(st.current)
    } else {
        st.words
    }
}

/// The tokens of an expression, one per word.
pub open spec fn tokens_of(s: Seq<char>) -> Seq<TokenModel> {
    words(s).map_values(|w: Seq<char>| token_of(w))
}

/// Whether every word of `s` can be made a token (none is a lone quote).
pub open spec fn lexable(s: Seq<char>) -> bool {
    forall|i: int| 0 <= i < words(s).len() ==> !is_lone_quote(#[trigger] words(s)[i])
}

proof fn lemma_scan_take_step(s: Seq<char>, i: int)
    requires
        0 <= i < s.len(),
    ensures
        scan(s.take(i + 1)) == scan_step(scan(s.take(i)), s[i]),
{
    assert(s.take(i + 1).drop_last() =~= s.take(i));
}

/// The token that a word makes, the word given as characters.
pub fn token_from_chars(w: &Vec<char>) -> (t: Token)
    requires
        !is_lone_quote(w@),
    ensures
        t@ == token_of(w@),
{
    let n = w.len();
    if n == 1 && w[0] == '+' {
        assert(w@ =~= seq!['+']);
        return Token {
            representation: string_of(w),
            token_type: TokenType::Operator(OperatorType::Add),
        };
    }
    if n == 1 && w[0] == '=' {
        assert(w@ =~= seq!['=']);
        assert(w@ != seq!['+']);
        return Token {
            representation: string_of(w),
            token_type: TokenType::Operator(OperatorType::Assign),
        };
    }
    assert(w@ != seq!['+'] && w@ != seq!['=']) by {
        if w@ == seq!['+'] || w@ == seq!['='] {
            assert(w@.len() == 1);
        }
    }
    match parse_int(w) {
        Some(v) => {
            return Token {
                representation: string_of(w),
                token_type: TokenType::Operand(OperandType::Literal(LiteralValue::Int(v))),
            };
        },
        None => {},
    }
    if is_float_text(w) {
        return Token {
            representation: string_of(w),
            token_type: TokenType::Operand(OperandType::Literal(LiteralValue::Float(string_of(w)))),
        };
    }
    if n >= 2 && w[0] == '"' && w[n - 1] == '"' {
        let mut inner: Vec<char> = Vec::new();
        let mut i: usize = 1;
        while i < n - 1
            invariant
                1 <= i <= n - 1,
                n == w@.len(),
                inner@ == w@.subrange(1, i as int),
            decreases n - 1 - i,
        {
            inner.push(w[i]);
            i = i + 1;
            assert(inner@ =~= w@.subrange(1, i as int));
        }
        return Token {
            representation: string_of(&inner),
            token_type: TokenType::Operand(OperandType::Literal(LiteralValue::String(string_of(&inner)))),
        };
    }
    assert(!is_quoted(w@)) by {
        if n == 1 && w[0] == '"' {
            assert(w@ =~= seq!['"']);
        }
    }
    Token {
        representation: string_of(w),
        token_type: TokenType::Operand(OperandType::Identifier),
    }
}

impl Token {
    /// The token that the word `literal` makes.
    pub fn new(literal: &str) -> (t: Token)
        requires
            !is_lone_quote(literal@),
        ensures
            t@ == token_of(literal@),
    {
        let w = chars_of(literal);
        token_from_chars(&w)
    }
}

/// The words of an expression.
pub fn split_words(expression: &str) -> (ws: Vec<Vec<char>>)
    ensures
        ws@.len() == words(expression@).len(),
        forall|i: int| 0 <= i < ws@.len() ==> #[trigger] ws@[i]@ == words(expression@)[i],
{
    let s = chars_of(expression);
    let ghost e = expression@;
    let n = s.len();
    let mut ws: Vec<Vec<char>> = Vec::new();
    let mut current: Vec<char> = Vec::new();
    let mut is_in_quotes = false;
    let mut i: usize = 0;
    assert(e.take(0) =~= Seq::<char>::empty());
    while i < n
        invariant
            s@ == e,
            n == e.len(),
            i <= n,
            ws@.len() == scan(e.take(i as int)).words.len(),
            forall|j: int|
                0 <= j < ws@.len() ==> #[trigger] ws@[j]@ == scan(e.take(i as int)).words[j],
            current@ == scan(e.take(i as int)).current,
            is_in_quotes == scan(e.take(i as int)).quoted,
        decreases n - i,
    {
        let ch = s[i];
        proof {
            lemma_scan_take_step(e, i as int);
        }
        if ch == '"' {
            current.push(ch);
            is_in_quotes = !is_in_quotes;
        } else if ch == ' ' && !is_in_quotes {
            if current.len() > 0 {
                ws.push(current);
                current = Vec::new();
            }
        } else {
            current.push(ch);
        }
        i = i + 1;
    }
    assert(e.take(n as int) =~= e);
    if current.len() > 0 {
        ws.push(current);
    }
    ws
}

/// Whether a word is a lone double quote.
fn lone_quote(w: &Vec<char>) -> (b: bool)
    ensures
        b == is_lone_quote(w@),
{
    if w.len() == 1 && w[0] == '"' {
        assert(w@ =~= seq!['"']);
        true
    } else {
        false
    }
}

/// Whether every word of `expression` can be made a token.
pub fn is_lexable(expression: &str) -> (b: bool)
    ensures
        b == lexable(expression@),
{
    let ws = split_words(expression);
    let mut i: usize = 0;
    while i < ws.len()
        invariant
            i <= ws@.len() == words(expression@).len(),
            forall|j: int| 0 <= j < ws@.len() ==> #[trigger] ws@[j]@ == words(expression@)[j],
            forall|j: int| 0 <= j < i ==> !is_lone_quote(#[trigger] words(expression@)[j]),
        decreases ws@.len() - i,
    {
        if lone_quote(&ws[i]) {
            assert(is_lone_quote(words(expression@)[i as int]));
            return false;
        }
        i = i + 1;
    }
    true
}

/// Splits an expression into its tokens.
pub fn parse(expression: &str) -> (tokens: Vec<Token>)
    requires
        lexable(expression@),
    ensures
        tokens@.len() == tokens_of(expression@).len(),
        forall|i: int| 0 <= i < tokens@.len() ==> #[trigger] tokens@[i]@ == tokens_of(expression@)[i],
{
    let ws = split_words(expression);
    let mut tokens: Vec<Token> = Vec::new();
    let mut i: usize = 0;
    while i < ws.len()
        invariant
            i <= ws@.len() == words(expression@).len(),
            lexable(expression@),
            forall|j: int| 0 <= j < ws@.len() ==> #[trigger] ws@[j]@ == words(expression@)[j],
            tokens@.len() == i,
            forall|j: int| 0 <= j < i ==> #[trigger] tokens@[j]@ == tokens_of(expression@)[j],
        decreases ws@.len() - i,
    {
        assert(!is_lone_quote(words(expression@)[i as int]));
        let t = token_from_chars(&ws[i]);
        tokens.push(t);
        i = i + 1;
    }
    tokens
}

} // verus!
