//! Lexical scanner: classifies the characters of a source text into a
//! sequence of tokens, or fails on the first unrecognized character.
//!
//! The scanner is specified as a left-to-right character automaton:
//! `lex_step` says how one character moves the automaton, `lex_run` folds
//! it over a prefix of the text, and `spec_tokenize` is the meaning of the
//! whole scan. The executable `tokenizer` is proved to return exactly
//! `spec_tokenize` of its input.

use vstd::prelude::*;
use vstd::string::*;

verus! {

/// A classified lexical unit carrying its raw source text.
///
/// `Number` holds the digit text verbatim (never converted to a numeric
/// type), `String` holds the text between the quotes with the delimiters
/// stripped and no escape decoding, and `Identifier` holds alphabetic-only
/// text.
#[derive(Debug, Clone, PartialEq, Eq)]
pub enum Token {
    OpeningParenthesis,
    ClosingParenthesis,
    Number(String),
    String(String),
    Identifier(String),
}

/// The mathematical value of a [`Token`]: the same tag over a `Seq<char>`.
pub enum TokenView {
    OpeningParenthesis,
    ClosingParenthesis,
    Number(Seq<char>),
    String(Seq<char>),
    Identifier(Seq<char>),
}

impl View for Token {
    type V = TokenView;

    open spec fn view(&self) -> TokenView {
        match self {
            Token::OpeningParenthesis => TokenView::OpeningParenthesis,
            Token::ClosingParenthesis => TokenView::ClosingParenthesis,
            Token::Number(s) => TokenView::Number(s@),
            Token::String(s) => TokenView::String(s@),
            Token::Identifier(s) => TokenView::Identifier(s@),
        }
    }
}

/// The views of a sequence of tokens, element by element.
pub open spec fn tokens_view(ts: Seq<Token>) -> Seq<TokenView> {
    Seq::new(ts.len(), |i: int| ts[i]@)
}

/// The text that names a token in an error message: its tag, and for the
/// tagged kinds the raw text in quotes.
pub open spec fn token_text(t: TokenView) -> Seq<char> {
    match t {
        TokenView::OpeningParenthesis => "OpeningParenthesis"@,
        TokenView::ClosingParenthesis => "ClosingParenthesis"@,
        TokenView::Number(s) => "Number(\""@ + s + "\")"@,
        TokenView::String(s) => "String(\""@ + s + "\")"@,
        TokenView::Identifier(s) => "Identifier(\""@ + s + "\")"@,
    }
}

impl Token {
    /// An equal copy of the token, field for field.
    pub fn duplicate(&self) -> (r: Token)
        ensures
            r@ == self@,
    {
        match self {
            Token::OpeningParenthesis => Token::OpeningParenthesis,
            Token::ClosingParenthesis => Token::ClosingParenthesis,
            Token::Number(s) => Token::Number(s.clone()),
            Token::String(s) => Token::String(s.clone()),
            Token::Identifier(s) => Token::Identifier(s.clone()),
        }
    }

    /// Renders the token as the text that names it in an error message.
    pub fn describe(&self) -> (r: String)
        ensures
            r@ == token_text(self@),
    {
        match self {
            Token::OpeningParenthesis => String::from_str("OpeningParenthesis"),
            Token::ClosingParenthesis => String::from_str("ClosingParenthesis"),
            Token::Number(s) => {
                let mut r = String::from_str("Number(\"");
                r.append(s.as_str());
                r.append("\")");
                r
            },
            Token::String(s) => {
                let mut r = String::from_str("String(\"");
                r.append(s.as_str());
                r.append("\")");
                r
            },
            Token::Identifier(s) => {
                let mut r = String::from_str("Identifier(\"");
                r.append(s.as_str());
                r.append("\")");
                r
            },
        }
    }
}

/// The scan failed: `character` is the first character of the input that
/// fits no token class.
#[derive(Debug)]
pub struct TokenizerError {
    pub character: char,
}

impl TokenizerError {
    /// The text of the error message: the fixed prefix followed by the
    /// offending character.
    pub open spec fn message_view(self) -> Seq<char> {
        "Tokenizer error: cannot understand character "@ + seq![self.character]
    }

    /// Renders the error as human-readable text.
    pub fn message(&self) -> (r: String)
        ensures
            r@ == self.message_view(),
    {
        let mut s = String::from_str("Tokenizer error: cannot understand character ");
        s.push(self.character);
        proof {
            assert(s@ =~= self.message_view());
        }
        s
    }
}

/// An ASCII decimal digit, `'0'` through `'9'`.
pub open spec fn is_digit_char(c: char) -> bool {
    48 <= c as u32 && c as u32 <= 57
}

/// Whether `char::is_whitespace` holds of `c` (the Unicode `White_Space`
/// property, which this library does not restate).
pub uninterp spec fn is_whitespace_char(c: char) -> bool;

/// Whether `char::is_alphabetic` holds of `c` (the Unicode `Alphabetic`
/// property, which this library does not restate).
pub uninterp spec fn is_alphabetic_char(c: char) -> bool;

/// Relies on char::is_whitespace: true exactly on characters with the
/// Unicode White_Space property, a function of the character alone.
pub assume_specification[ char::is_whitespace ](c: char) -> (r: bool)
    ensures
        r == is_whitespace_char(c),
;

/// Relies on char::is_alphabetic: true exactly on characters with the
/// Unicode Alphabetic property, a function of the character alone.
pub assume_specification[ char::is_alphabetic ](c: char) -> (r: bool)
    ensures
        r == is_alphabetic_char(c),
;

/// Relies on String::push: appends the given character to the end of the
/// string.
pub assume_specification[ std::string::String::push ](s: &mut std::string::String, c: char)
    ensures
        final(s)@ == old(s)@.push(c),
;

/// The scanner's state between two characters: either between tokens, or
/// in the middle of a number, string or identifier token whose characters
/// read so far are `acc`.
pub enum LexState {
    Ready,
    InNumber { acc: Seq<char> },
    InString { acc: Seq<char> },
    InName { acc: Seq<char> },
}

/// One character seen from the `Ready` state: the tokens it emits and the
/// state it leads to, or the character itself if it fits no token class.
/// The classification order is the scanner's rule order: parentheses,
/// whitespace, digits, the string delimiter, alphabetic characters.
pub open spec fn lex_base(c: char) -> Result<(LexState, Seq<TokenView>), char> {
    if c == '(' {
        Ok((LexState::Ready, seq![TokenView::OpeningParenthesis]))
    } else if c == ')' {
        Ok((LexState::Ready, seq![TokenView::ClosingParenthesis]))
    } else if is_whitespace_char(c) {
        Ok((LexState::Ready, seq![]))
    } else if is_digit_char(c) {
        Ok((LexState::InNumber { acc: seq![c] }, seq![]))
    } else if c == '"' {
        Ok((LexState::InString { acc: seq![] }, seq![]))
    } else if is_alphabetic_char(c) {
        Ok((LexState::InName { acc: seq![c] }, seq![]))
    } else {
        Err(c)
    }
}

/// One step of the scanner: how one character moves it from state `st`.
/// A number or identifier run is maximal: a character that does not extend
/// the run ends its token and is then classified afresh from `Ready`. A
/// string consumes every character verbatim up to the closing quote.
pub open spec fn lex_step(st: LexState, c: char) -> Result<(LexState, Seq<TokenView>), char> {
    match st {
        LexState::Ready => lex_base(c),
        LexState::InNumber { acc } => {
            if is_digit_char(c) {
                Ok((LexState::InNumber { acc: acc.push(c) }, seq![]))
            } else {
                match lex_base(c) {
                    Ok((st2, emitted)) => Ok((st2, seq![TokenView::Number(acc)] + emitted)),
                    Err(e) => Err(e),
                }
            }
        },
        LexState::InString { acc } => {
            if c == '"' {
                Ok((LexState::Ready, seq![TokenView::String(acc)]))
            } else {
                Ok((LexState::InString { acc: acc.push(c) }, seq![]))
            }
        },
        LexState::InName { acc } => {
            if is_alphabetic_char(c) {
                Ok((LexState::InName { acc: acc.push(c) }, seq![]))
            } else {
                match lex_base(c) {
                    Ok((st2, emitted)) => Ok((st2, seq![TokenView::Identifier(acc)] + emitted)),
                    Err(e) => Err(e),
                }
            }
        },
    }
}

/// The scanner folded over the first `i` characters of `s`: the state it
/// reaches and the tokens it has emitted, or the first unrecognized
/// character.
pub open spec fn lex_run(s: Seq<char>, i: int) -> Result<(LexState, Seq<TokenView>), char>
    decreases i,
{
    if i <= 0 {
        Ok((LexState::Ready, seq![]))
    } else {
        match lex_run(s, i - 1) {
            Err(e) => Err(e),
            Ok((st, emitted)) => match lex_step(st, s[i - 1]) {
                Err(e) => Err(e),
                Ok((st2, more)) => Ok((st2, emitted + more)),
            },
        }
    }
}

/// End of input: a number or identifier run still open becomes its token,
/// and an unterminated string is treated as implicitly closed and becomes
/// its token too.
pub open spec fn lex_finish(st: LexState, emitted: Seq<TokenView>) -> Seq<TokenView> {
    match st {
        LexState::Ready => emitted,
        LexState::InNumber { acc } => emitted.push(TokenView::Number(acc)),
        LexState::InString { acc } => emitted.push(TokenView::String(acc)),
        LexState::InName { acc } => emitted.push(TokenView::Identifier(acc)),
    }
}

/// The meaning of scanning the whole text `s`: the full token sequence in
/// input order, or the leftmost character that fits no token class.
pub open spec fn spec_tokenize(s: Seq<char>) -> Result<Seq<TokenView>, char> {
    match lex_run(s, s.len() as int) {
        Err(e) => Err(e),
        Ok((st, emitted)) => Ok(lex_finish(st, emitted)),
    }
}

/// Once the scan has failed on a prefix, every longer prefix fails on the
/// same character.
proof fn lemma_lex_run_err_persists(s: Seq<char>, i: int, j: int)
    requires
        0 <= i <= j,
        lex_run(s, i) is Err,
    ensures
        lex_run(s, j) == lex_run(s, i),
    decreases j - i,
{
    if j > i {
        lemma_lex_run_err_persists(s, i, j - 1);
    }
}

/// No identifier token in the sequence has empty text.
pub open spec fn identifiers_nonempty(toks: Seq<TokenView>) -> bool {
    forall|i: int|
        0 <= i < toks.len() ==> match #[trigger] toks[i] {
            TokenView::Identifier(name) => name.len() > 0,
            _ => true,
        }
}

proof fn lemma_identifiers_nonempty_concat(a: Seq<TokenView>, b: Seq<TokenView>)
    requires
        identifiers_nonempty(a),
        identifiers_nonempty(b),
    ensures
        identifiers_nonempty(a + b),
{
    assert forall|i: int| 0 <= i < (a + b).len() implies match #[trigger] (a + b)[i] {
        TokenView::Identifier(name) => name.len() > 0,
        _ => true,
    } by {
        if i < a.len() {
            assert((a + b)[i] == a[i]);
        } else {
            assert((a + b)[i] == b[i - a.len()]);
        }
    }
}

/// Along any run of the scanner, every identifier token emitted so far is
/// non-empty, and an identifier run still open is non-empty too: it
/// started with its first alphabetic character.
proof fn lemma_lex_run_identifiers(s: Seq<char>, i: int)
    requires
        0 <= i,
    ensures
        lex_run(s, i) matches Ok((st, toks)) ==> identifiers_nonempty(toks) && (
        st matches LexState::InName { acc } ==> acc.len() > 0),
    decreases i,
{
    if i > 0 {
        lemma_lex_run_identifiers(s, i - 1);
        match lex_run(s, i - 1) {
            Ok((st, toks)) => {
                match lex_step(st, s[i - 1]) {
                    Ok((st2, more)) => {
                        assert(identifiers_nonempty(more));
                        lemma_identifiers_nonempty_concat(toks, more);
                    },
                    Err(_) => {},
                }
            },
            Err(_) => {},
        }
    }
}

/// Every identifier token that the scanner emits carries at least one
/// character: an identifier run starts at an alphabetic character.
pub proof fn lemma_spec_tokenize_identifiers_nonempty(s: Seq<char>)
    ensures
        spec_tokenize(s) matches Ok(toks) ==> identifiers_nonempty(toks),
{
    lemma_lex_run_identifiers(s, s.len() as int);
    match lex_run(s, s.len() as int) {
        Ok((st, emitted)) => {
            let toks = lex_finish(st, emitted);
            assert forall|i: int| 0 <= i < toks.len() implies match #[trigger] toks[i] {
                TokenView::Identifier(name) => name.len() > 0,
                _ => true,
            } by {
                if i < emitted.len() {
                    assert(toks[i] == emitted[i]);
                }
            }
        },
        Err(_) => {},
    }
}

/// The executable counterpart of [`LexState`]: the accumulated run is a
/// `String` under construction.
enum Mode {
    Ready,
    InNumber(String),
    InString(String),
    InName(String),
}

impl View for Mode {
    type V = LexState;

    closed spec fn view(&self) -> LexState {
        match self {
            Mode::Ready => LexState::Ready,
            Mode::InNumber(s) => LexState::InNumber { acc: s@ },
            Mode::InString(s) => LexState::InString { acc: s@ },
            Mode::InName(s) => LexState::InName { acc: s@ },
        }
    }
}

proof fn lemma_tokens_view_push(ts: Seq<Token>, t: Token)
    ensures
        tokens_view(ts.push(t)) == tokens_view(ts).push(t@),
{
    assert(tokens_view(ts.push(t)) =~= tokens_view(ts).push(t@));
}

/// An ASCII decimal digit, `'0'` through `'9'`.
fn is_digit(c: char) -> (r: bool)
    ensures
        r == is_digit_char(c),
{
    let u = c as u32;
    48 <= u && u <= 57
}

/// One character classified from between tokens, mirroring [`lex_base`].
fn scan_base(c: char, tokens: &mut Vec<Token>) -> (r: Result<Mode, TokenizerError>)
    ensures
        match lex_base(c) {
            Ok((st, emitted)) => r matches Ok(m) && m@ == st && tokens_view(final(tokens)@)
                == tokens_view(old(tokens)@) + emitted,
            Err(e) => r matches Err(te) && te.character == e,
        },
{
    if c == '(' {
        tokens.push(Token::OpeningParenthesis);
        proof {
            lemma_tokens_view_push(old(tokens)@, Token::OpeningParenthesis);
            assert(tokens_view(old(tokens)@).push(TokenView::OpeningParenthesis) =~= tokens_view(
                old(tokens)@,
            ) + seq![TokenView::OpeningParenthesis]);
        }
        Ok(Mode::Ready)
    } else if c == ')' {
        tokens.push(Token::ClosingParenthesis);
        proof {
            lemma_tokens_view_push(old(tokens)@, Token::ClosingParenthesis);
            assert(tokens_view(old(tokens)@).push(TokenView::ClosingParenthesis) =~= tokens_view(
                old(tokens)@,
            ) + seq![TokenView::ClosingParenthesis]);
        }
        Ok(Mode::Ready)
    } else if c.is_whitespace() {
        proof {
            assert(tokens_view(tokens@) =~= tokens_view(tokens@) + Seq::<TokenView>::empty());
        }
        Ok(Mode::Ready)
    } else if is_digit(c) {
        let mut acc = String::new();
        acc.push(c);
        proof {
            assert(acc@ =~= seq![c]);
            assert(tokens_view(tokens@) =~= tokens_view(tokens@) + Seq::<TokenView>::empty());
        }
        Ok(Mode::InNumber(acc))
    } else if c == '"' {
        proof {
            assert(tokens_view(tokens@) =~= tokens_view(tokens@) + Seq::<TokenView>::empty());
        }
        Ok(Mode::InString(String::new()))
    } else if c.is_alphabetic() {
        let mut acc = String::new();
        acc.push(c);
        proof {
            assert(acc@ =~= seq![c]);
            assert(tokens_view(tokens@) =~= tokens_view(tokens@) + Seq::<TokenView>::empty());
        }
        Ok(Mode::InName(acc))
    } else {
        Err(TokenizerError { character: c })
    }
}

/// One step of the executable scanner, mirroring [`lex_step`].
fn scan_step(m: Mode, c: char, tokens: &mut Vec<Token>) -> (r: Result<Mode, TokenizerError>)
    ensures
        match lex_step(m@, c) {
            Ok((st, emitted)) => r matches Ok(m2) && m2@ == st && tokens_view(final(tokens)@)
                == tokens_view(old(tokens)@) + emitted,
            Err(e) => r matches Err(te) && te.character == e,
        },
{
    match m {
        Mode::Ready => scan_base(c, tokens),
        Mode::InNumber(mut acc) => {
            if is_digit(c) {
                acc.push(c);
                proof {
                    assert(tokens_view(tokens@) =~= tokens_view(tokens@)
                        + Seq::<TokenView>::empty());
                }
                Ok(Mode::InNumber(acc))
            } else {
                let ghost toks0 = tokens@;
                let ghost num = TokenView::Number(acc@);
                tokens.push(Token::Number(acc));
                proof {
                    lemma_tokens_view_push(toks0, Token::Number(acc));
                }
                let r = scan_base(c, tokens);
                proof {
                    if lex_base(c) is Ok {
                        let emitted = lex_base(c)->Ok_0.1;
                        assert(tokens_view(tokens@) == (tokens_view(toks0).push(num)) + emitted);
                        assert((tokens_view(toks0).push(num)) + emitted =~= tokens_view(toks0) + (
                        seq![num] + emitted));
                    }
                }
                r
            }
        },
        Mode::InString(mut acc) => {
            if c == '"' {
                let ghost toks0 = tokens@;
                tokens.push(Token::String(acc));
                proof {
                    lemma_tokens_view_push(toks0, Token::String(acc));
                    assert(tokens_view(toks0).push(TokenView::String(acc@)) =~= tokens_view(toks0)
                        + seq![TokenView::String(acc@)]);
                }
                Ok(Mode::Ready)
            } else {
                acc.push(c);
                proof {
                    assert(tokens_view(tokens@) =~= tokens_view(tokens@)
                        + Seq::<TokenView>::empty());
                }
                Ok(Mode::InString(acc))
            }
        },
        Mode::InName(mut acc) => {
            if c.is_alphabetic() {
                acc.push(c);
                proof {
                    assert(tokens_view(tokens@) =~= tokens_view(tokens@)
                        + Seq::<TokenView>::empty());
                }
                Ok(Mode::InName(acc))
            } else {
                let ghost toks0 = tokens@;
                let ghost name = TokenView::Identifier(acc@);
                tokens.push(Token::Identifier(acc));
                proof {
                    lemma_tokens_view_push(toks0, Token::Identifier(acc));
                }
                let r = scan_base(c, tokens);
                proof {
                    if lex_base(c) is Ok {
                        let emitted = lex_base(c)->Ok_0.1;
                        assert(tokens_view(tokens@) == (tokens_view(toks0).push(name)) + emitted);
                        assert((tokens_view(toks0).push(name)) + emitted =~= tokens_view(toks0) + (
                        seq![name] + emitted));
                    }
                }
                r
            }
        },
    }
}

/// Scans `code` left to right and returns its tokens in input order, or
/// the first character that fits no token class.
///
/// The result is exactly [`spec_tokenize`] of the text: `Ok` with the full
/// token sequence when every character is classified, `Err` carrying the
/// leftmost unrecognized character otherwise. Empty or all-whitespace
/// input yields an empty sequence.
pub fn tokenizer(code: &str) -> (r: Result<Vec<Token>, TokenizerError>)
    ensures
        match r {
            Ok(tokens) => spec_tokenize(code@) == Ok::<Seq<TokenView>, char>(
                tokens_view(tokens@),
            ),
            Err(e) => spec_tokenize(code@) == Err::<Seq<TokenView>, char>(e.character),
        },
{
    let n = code.unicode_len();
    let mut tokens: Vec<Token> = Vec::new();
    let mut mode = Mode::Ready;
    let mut i: usize = 0;
    proof {
        assert(tokens_view(tokens@) =~= Seq::<TokenView>::empty());
    }
    while i < n
        invariant
            n == code@.len(),
            i <= n,
            lex_run(code@, i as int) == Ok::<(LexState, Seq<TokenView>), char>(
                (mode@, tokens_view(tokens@)),
            ),
        decreases n - i,
    {
        let c = code.get_char(i);
        match scan_step(mode, c, &mut tokens) {
            Ok(m2) => {
                mode = m2;
            },
            Err(e) => {
                proof {
                    assert(lex_run(code@, i + 1) == Err::<(LexState, Seq<TokenView>), char>(
                        e.character,
                    ));
                    lemma_lex_run_err_persists(code@, i + 1, n as int);
                }
                return Err(e);
            },
        }
        i = i + 1;
    }
    match mode {
        Mode::Ready => Ok(tokens),
        Mode::InNumber(acc) => {
            proof {
                lemma_tokens_view_push(tokens@, Token::Number(acc));
            }
            tokens.push(Token::Number(acc));
            Ok(tokens)
        },
        Mode::InString(acc) => {
            proof {
                lemma_tokens_view_push(tokens@, Token::String(acc));
            }
            tokens.push(Token::String(acc));
            Ok(tokens)
        },
        Mode::InName(acc) => {
            proof {
                lemma_tokens_view_push(tokens@, Token::Identifier(acc));
            }
            tokens.push(Token::Identifier(acc));
            Ok(tokens)
        },
    }
}

} // verus!
