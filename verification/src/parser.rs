//! Parser: turns a token sequence into an ordered sequence of top-level
//! expression nodes, or fails on the first token that breaks the grammar.
//!
//! The grammar is specified as a left-to-right token automaton with an
//! explicit stack of open call expressions: `parse_step` says how one
//! token moves it, `parse_run` folds it over a prefix of the sequence, and
//! `spec_parse` is the meaning of the whole parse. The executable `parse`
//! is proved to return exactly `spec_parse` of its input.

use crate::tokenizer::{tokens_view, Token, TokenView};
use vstd::prelude::*;
use vstd::string::*;

verus! {

broadcast use vstd::seq::axiom_seq_index_decreases, vstd::seq::axiom_seq_subrange_decreases;

/// A call form `(name param*)`: an identifier head and its parameter
/// subtrees in source order.
#[derive(Debug, PartialEq, Eq)]
pub struct AstCallExpression {
    pub name: String,
    pub params: Vec<AbstractSyntaxTree>,
}

/// One node of the syntax tree: a call form, a number literal, or a
/// string literal, each literal carrying its raw source text.
#[derive(Debug, PartialEq, Eq)]
pub enum AbstractSyntaxTree {
    CallExpression(AstCallExpression),
    NumberLiteral(String),
    StringLiteral(String),
}

/// The mathematical value of an [`AbstractSyntaxTree`] node.
pub enum AstView {
    CallExpression { name: Seq<char>, params: Seq<AstView> },
    NumberLiteral(Seq<char>),
    StringLiteral(Seq<char>),
}

/// The mathematical value of a node: its tag over sequences, with every
/// child taken to its value as well.
pub open spec fn ast_view(a: AbstractSyntaxTree) -> AstView
    decreases a, 1int,
{
    match a {
        AbstractSyntaxTree::CallExpression(c) => AstView::CallExpression {
            name: c.name@,
            params: ast_list_view(c.params@),
        },
        AbstractSyntaxTree::NumberLiteral(s) => AstView::NumberLiteral(s@),
        AbstractSyntaxTree::StringLiteral(s) => AstView::StringLiteral(s@),
    }
}

/// The values of a sequence of nodes, element by element.
pub open spec fn ast_list_view(l: Seq<AbstractSyntaxTree>) -> Seq<AstView>
    decreases l, 0int,
{
    Seq::new(
        l.len(),
        |i: int|
            if 0 <= i < l.len() {
                ast_view(l[i])
            } else {
                AstView::NumberLiteral(Seq::empty())
            },
    )
}

impl View for AbstractSyntaxTree {
    type V = AstView;

    open spec fn view(&self) -> AstView {
        ast_view(*self)
    }
}

/// Why a parse failed; each variant names the first token (left to right)
/// that broke the grammar.
#[derive(Debug)]
pub enum ParserError {
    /// An opening parenthesis was the last token: no call name follows.
    MissingIdentifier,
    /// An opening parenthesis was followed by this token instead of an
    /// identifier.
    ExpectedIdentifier(Token),
    /// The input ended while at least one call form was still open.
    MissingClosingParenthesis,
    /// A closing parenthesis appeared with no call form open.
    UnexpectedClosingParenthesis,
    /// A bare identifier appeared outside call-head position.
    UnexpectedIdentifier(String),
}

/// The mathematical value of a [`ParserError`].
pub enum ParserErrorView {
    MissingIdentifier,
    ExpectedIdentifier(TokenView),
    MissingClosingParenthesis,
    UnexpectedClosingParenthesis,
    UnexpectedIdentifier(Seq<char>),
}

impl View for ParserError {
    type V = ParserErrorView;

    open spec fn view(&self) -> ParserErrorView {
        match self {
            ParserError::MissingIdentifier => ParserErrorView::MissingIdentifier,
            ParserError::ExpectedIdentifier(t) => ParserErrorView::ExpectedIdentifier(t@),
            ParserError::MissingClosingParenthesis => ParserErrorView::MissingClosingParenthesis,
            ParserError::UnexpectedClosingParenthesis
                => ParserErrorView::UnexpectedClosingParenthesis,
            ParserError::UnexpectedIdentifier(s) => ParserErrorView::UnexpectedIdentifier(s@),
        }
    }
}

/// The text of a parser error message: a fixed prefix naming the error,
/// and for the token-carrying kinds the offending token or identifier.
pub open spec fn parser_error_text(e: ParserErrorView) -> Seq<char> {
    match e {
        ParserErrorView::MissingIdentifier => "Parser error: missing identifier in CallExpression"@,
        ParserErrorView::ExpectedIdentifier(t)
            => "Parser error: expected identifier in CallExpression, but got "@
            + crate::tokenizer::token_text(t),
        ParserErrorView::MissingClosingParenthesis => "Parser error: missing closing parenthesis"@,
        ParserErrorView::UnexpectedClosingParenthesis
            => "Parser error: unexpected closing parenthesis"@,
        ParserErrorView::UnexpectedIdentifier(s) => "Parser error: unexpected identifier '"@ + s
            + "'"@,
    }
}

impl ParserError {
    /// Renders the error as human-readable text.
    pub fn message(&self) -> (r: String)
        ensures
            r@ == parser_error_text(self@),
    {
        match self {
            ParserError::MissingIdentifier => String::from_str(
                "Parser error: missing identifier in CallExpression",
            ),
            ParserError::ExpectedIdentifier(t) => {
                let mut r = String::from_str(
                    "Parser error: expected identifier in CallExpression, but got ",
                );
                let d = t.describe();
                r.append(d.as_str());
                r
            },
            ParserError::MissingClosingParenthesis => String::from_str(
                "Parser error: missing closing parenthesis",
            ),
            ParserError::UnexpectedClosingParenthesis => String::from_str(
                "Parser error: unexpected closing parenthesis",
            ),
            ParserError::UnexpectedIdentifier(s) => {
                let mut r = String::from_str("Parser error: unexpected identifier '");
                r.append(s.as_str());
                r.append("'");
                r
            },
        }
    }
}

/// A call form still open while its parameters are being parsed: its name
/// and the parameters collected so far.
pub struct FrameView {
    pub name: Seq<char>,
    pub params: Seq<AstView>,
}

/// The parser's state between two tokens: the finished top-level nodes,
/// the stack of open call forms (innermost last), and whether the token
/// just read was an opening parenthesis, so that a call name is expected
/// next.
pub struct ParseState {
    pub done: Seq<AstView>,
    pub stack: Seq<FrameView>,
    pub expecting_name: bool,
}

/// The parser's state before any token: nothing parsed, no call open.
pub open spec fn parse_init() -> ParseState {
    ParseState { done: seq![], stack: seq![], expecting_name: false }
}

/// A finished node joins the innermost open call form as its next
/// parameter, or the top-level sequence when no call is open.
pub open spec fn state_emit(st: ParseState, node: AstView) -> ParseState {
    if st.stack.len() == 0 {
        ParseState { done: st.done.push(node), stack: st.stack, expecting_name: st.expecting_name }
    } else {
        let k = st.stack.len() - 1;
        let fr = st.stack[k];
        ParseState {
            done: st.done,
            stack: st.stack.update(k, FrameView { name: fr.name, params: fr.params.push(node) }),
            expecting_name: st.expecting_name,
        }
    }
}

/// One step of the parser: how one token moves it from state `st`.
///
/// Right after an opening parenthesis only an identifier is accepted, and
/// it opens a call form. Otherwise a number or string token becomes a
/// literal node, an opening parenthesis asks for a call name, a closing
/// parenthesis closes the innermost open call form (and is an error when
/// none is open), and a bare identifier is an error.
pub open spec fn parse_step(st: ParseState, t: TokenView) -> Result<ParseState, ParserErrorView> {
    if st.expecting_name {
        match t {
            TokenView::Identifier(name) => Ok(ParseState {
                done: st.done,
                stack: st.stack.push(FrameView { name, params: seq![] }),
                expecting_name: false,
            }),
            _ => Err(ParserErrorView::ExpectedIdentifier(t)),
        }
    } else {
        match t {
            TokenView::OpeningParenthesis => Ok(ParseState {
                done: st.done,
                stack: st.stack,
                expecting_name: true,
            }),
            TokenView::ClosingParenthesis => {
                if st.stack.len() == 0 {
                    Err(ParserErrorView::UnexpectedClosingParenthesis)
                } else {
                    let fr = st.stack[st.stack.len() - 1];
                    let popped = ParseState {
                        done: st.done,
                        stack: st.stack.drop_last(),
                        expecting_name: false,
                    };
                    Ok(state_emit(popped, AstView::CallExpression {
                        name: fr.name,
                        params: fr.params,
                    }))
                }
            },
            TokenView::Number(s) => Ok(state_emit(st, AstView::NumberLiteral(s))),
            TokenView::String(s) => Ok(state_emit(st, AstView::StringLiteral(s))),
            TokenView::Identifier(name) => Err(ParserErrorView::UnexpectedIdentifier(name)),
        }
    }
}

/// The parser folded over the first `i` tokens: the state it reaches, or
/// the first error.
pub open spec fn parse_run(toks: Seq<TokenView>, i: int) -> Result<ParseState, ParserErrorView>
    decreases i,
{
    if i <= 0 {
        Ok(parse_init())
    } else {
        match parse_run(toks, i - 1) {
            Err(e) => Err(e),
            Ok(st) => parse_step(st, toks[i - 1]),
        }
    }
}

/// End of input: a pending call name is a missing identifier, an open
/// call form is a missing closing parenthesis, and otherwise the finished
/// top-level nodes are the result.
pub open spec fn parse_finish(st: ParseState) -> Result<Seq<AstView>, ParserErrorView> {
    if st.expecting_name {
        Err(ParserErrorView::MissingIdentifier)
    } else if st.stack.len() > 0 {
        Err(ParserErrorView::MissingClosingParenthesis)
    } else {
        Ok(st.done)
    }
}

/// The meaning of parsing the whole token sequence: the top-level nodes
/// in source order, or the leftmost grammar error.
pub open spec fn spec_parse(toks: Seq<TokenView>) -> Result<Seq<AstView>, ParserErrorView> {
    match parse_run(toks, toks.len() as int) {
        Err(e) => Err(e),
        Ok(st) => parse_finish(st),
    }
}

/// Once the parse has failed on a prefix, every longer prefix fails with
/// the same error.
proof fn lemma_parse_run_err_persists(toks: Seq<TokenView>, i: int, j: int)
    requires
        0 <= i <= j,
        parse_run(toks, i) is Err,
    ensures
        parse_run(toks, j) == parse_run(toks, i),
    decreases j - i,
{
    if j > i {
        lemma_parse_run_err_persists(toks, i, j - 1);
    }
}

/// The executable counterpart of [`FrameView`]: one call form still open.
struct Frame {
    name: String,
    params: Vec<AbstractSyntaxTree>,
}

impl View for Frame {
    type V = FrameView;

    closed spec fn view(&self) -> FrameView {
        FrameView { name: self.name@, params: ast_list_view(self.params@) }
    }
}

/// The views of a stack of open call forms, element by element.
spec fn frames_view(s: Seq<Frame>) -> Seq<FrameView> {
    Seq::new(s.len(), |i: int| s[i]@)
}

proof fn lemma_ast_list_view_push(l: Seq<AbstractSyntaxTree>, a: AbstractSyntaxTree)
    ensures
        ast_list_view(l.push(a)) == ast_list_view(l).push(ast_view(a)),
{
    assert(ast_list_view(l.push(a)) =~= ast_list_view(l).push(ast_view(a)));
}

proof fn lemma_frames_view_push(s: Seq<Frame>, f: Frame)
    ensures
        frames_view(s.push(f)) == frames_view(s).push(f@),
{
    assert(frames_view(s.push(f)) =~= frames_view(s).push(f@));
}

proof fn lemma_frames_view_drop_last(s: Seq<Frame>)
    requires
        s.len() > 0,
    ensures
        frames_view(s.drop_last()) == frames_view(s).drop_last(),
{
    assert(frames_view(s.drop_last()) =~= frames_view(s).drop_last());
}

/// Appends a finished node to the innermost open call form, or to the
/// top-level sequence when no call is open, exactly as [`state_emit`]
/// says.
fn emit_node(
    done: &mut Vec<AbstractSyntaxTree>,
    stack: &mut Vec<Frame>,
    node: AbstractSyntaxTree,
)
    ensures
        ({
            let st1 = state_emit(
                ParseState {
                    done: ast_list_view(old(done)@),
                    stack: frames_view(old(stack)@),
                    expecting_name: false,
                },
                ast_view(node),
            );
            ast_list_view(final(done)@) == st1.done && frames_view(final(stack)@) == st1.stack
        }),
{
    let ghost node_v = ast_view(node);
    if stack.len() == 0 {
        proof {
            lemma_ast_list_view_push(done@, node);
        }
        done.push(node);
    } else {
        let ghost fs = stack@;
        let mut fr = stack.pop().unwrap();
        proof {
            lemma_ast_list_view_push(fr.params@, node);
        }
        fr.params.push(node);
        stack.push(fr);
        proof {
            let k = frames_view(fs).len() - 1;
            let fr0 = frames_view(fs)[k];
            assert(frames_view(stack@) =~= frames_view(fs).update(
                k,
                FrameView { name: fr0.name, params: fr0.params.push(node_v) },
            ));
        }
    }
}

/// Parses the token sequence into its top-level nodes in source order, or
/// returns the leftmost grammar error.
///
/// The result is exactly [`spec_parse`] of the tokens: `Ok` with the node
/// sequence when the tokens form a well-formed program, and otherwise the
/// `Err` that [`parse_step`] or [`parse_finish`] assigns to the first
/// offending token or to the truncated end of input.
pub fn parse(tokens: Vec<Token>) -> (r: Result<Vec<AbstractSyntaxTree>, ParserError>)
    ensures
        match r {
            Ok(ast) => spec_parse(tokens_view(tokens@)) == Ok::<Seq<AstView>, ParserErrorView>(
                ast_list_view(ast@),
            ),
            Err(e) => spec_parse(tokens_view(tokens@)) == Err::<Seq<AstView>, ParserErrorView>(e@),
        },
{
    let ghost tv = tokens_view(tokens@);
    let n = tokens.len();
    let mut done: Vec<AbstractSyntaxTree> = Vec::new();
    let mut stack: Vec<Frame> = Vec::new();
    let mut expecting_name = false;
    let mut i: usize = 0;
    proof {
        assert(ast_list_view(done@) =~= Seq::<AstView>::empty());
        assert(frames_view(stack@) =~= Seq::<FrameView>::empty());
    }
    while i < n
        invariant
            n == tokens@.len(),
            tv == tokens_view(tokens@),
            i <= n,
            parse_run(tv, i as int) == Ok::<ParseState, ParserErrorView>(
                ParseState {
                    done: ast_list_view(done@),
                    stack: frames_view(stack@),
                    expecting_name: expecting_name,
                },
            ),
        decreases n - i,
    {
        let t = &tokens[i];
        proof {
            assert(t@ == tv[i as int]);
        }
        if expecting_name {
            match t {
                Token::Identifier(name) => {
                    let fr = Frame { name: name.clone(), params: Vec::new() };
                    proof {
                        assert(ast_list_view(fr.params@) =~= Seq::<AstView>::empty());
                        lemma_frames_view_push(stack@, fr);
                    }
                    stack.push(fr);
                    expecting_name = false;
                },
                _ => {
                    let e = ParserError::ExpectedIdentifier(t.duplicate());
                    proof {
                        lemma_parse_run_err_persists(tv, i + 1, n as int);
                    }
                    return Err(e);
                },
            }
        } else {
            match t {
                Token::OpeningParenthesis => {
                    expecting_name = true;
                },
                Token::ClosingParenthesis => {
                    if stack.len() == 0 {
                        proof {
                            lemma_parse_run_err_persists(tv, i + 1, n as int);
                        }
                        return Err(ParserError::UnexpectedClosingParenthesis);
                    } else {
                        let ghost fs = stack@;
                        let fr = stack.pop().unwrap();
                        let node = AbstractSyntaxTree::CallExpression(
                            AstCallExpression { name: fr.name, params: fr.params },
                        );
                        proof {
                            lemma_frames_view_drop_last(fs);
                        }
                        emit_node(&mut done, &mut stack, node);
                    }
                },
                Token::Number(s) => {
                    emit_node(&mut done, &mut stack, AbstractSyntaxTree::NumberLiteral(s.clone()));
                },
                Token::String(s) => {
                    emit_node(&mut done, &mut stack, AbstractSyntaxTree::StringLiteral(s.clone()));
                },
                Token::Identifier(name) => {
                    let e = ParserError::UnexpectedIdentifier(name.clone());
                    proof {
                        lemma_parse_run_err_persists(tv, i + 1, n as int);
                    }
                    return Err(e);
                },
            }
        }
        i = i + 1;
    }
    if expecting_name {
        Err(ParserError::MissingIdentifier)
    } else if stack.len() > 0 {
        Err(ParserError::MissingClosingParenthesis)
    } else {
        Ok(done)
    }
}

/// The number of call-expression nodes in one tree, the node itself and
/// every nested parameter included.
pub open spec fn call_count(a: AstView) -> nat
    decreases a, 1int,
{
    match a {
        AstView::CallExpression { name, params } => 1 + call_count_list(params),
        AstView::NumberLiteral(_) => 0,
        AstView::StringLiteral(_) => 0,
    }
}

/// The number of call-expression nodes in a sequence of trees.
pub open spec fn call_count_list(l: Seq<AstView>) -> nat
    decreases l, 0int,
{
    if l.len() == 0 {
        0
    } else {
        call_count_list(l.drop_last()) + call_count(l.last())
    }
}

/// The number of opening-parenthesis tokens among the first `i` tokens.
pub open spec fn open_count(toks: Seq<TokenView>, i: int) -> nat
    decreases i,
{
    if i <= 0 {
        0
    } else {
        open_count(toks, i - 1) + (if toks[i - 1] is OpeningParenthesis {
            1nat
        } else {
            0nat
        })
    }
}

/// The number of opening-parenthesis tokens in the whole sequence.
pub open spec fn opening_paren_count(toks: Seq<TokenView>) -> nat {
    open_count(toks, toks.len() as int)
}

/// The call-expression nodes held anywhere in a parser state: in the
/// finished top-level trees and in the parameters of every open call
/// form.
pub open spec fn frames_call_count(s: Seq<FrameView>) -> nat
    decreases s.len(),
{
    if s.len() == 0 {
        0
    } else {
        frames_call_count(s.drop_last()) + call_count_list(s.last().params)
    }
}

/// See [`frames_call_count`]: the total over both parts of the state.
pub open spec fn state_call_count(st: ParseState) -> nat {
    call_count_list(st.done) + frames_call_count(st.stack)
}

proof fn lemma_call_count_list_push(l: Seq<AstView>, a: AstView)
    ensures
        call_count_list(l.push(a)) == call_count_list(l) + call_count(a),
{
    assert(l.push(a).drop_last() =~= l);
}

proof fn lemma_frames_call_count_push(s: Seq<FrameView>, f: FrameView)
    ensures
        frames_call_count(s.push(f)) == frames_call_count(s) + call_count_list(f.params),
{
    assert(s.push(f).drop_last() =~= s);
}

proof fn lemma_frames_call_count_update_last(s: Seq<FrameView>, f: FrameView)
    requires
        s.len() > 0,
    ensures
        frames_call_count(s.update(s.len() - 1, f)) == frames_call_count(s.drop_last())
            + call_count_list(f.params),
{
    assert(s.update(s.len() - 1, f).drop_last() =~= s.drop_last());
}

/// A finished node adds exactly its own call-expression count to the
/// state, wherever it is filed.
proof fn lemma_state_emit_call_count(st: ParseState, node: AstView)
    ensures
        state_call_count(state_emit(st, node)) == state_call_count(st) + call_count(node),
{
    if st.stack.len() == 0 {
        lemma_call_count_list_push(st.done, node);
    } else {
        let k = st.stack.len() - 1;
        let fr = st.stack[k];
        lemma_frames_call_count_update_last(
            st.stack,
            FrameView { name: fr.name, params: fr.params.push(node) },
        );
        lemma_call_count_list_push(fr.params, node);
    }
}

/// Along any run of the parser, the call-expression nodes built so far,
/// plus one for each call form still open or just opened, never exceed
/// the opening parentheses read so far.
proof fn lemma_run_call_count(toks: Seq<TokenView>, i: int)
    requires
        0 <= i <= toks.len(),
    ensures
        parse_run(toks, i) matches Ok(st) ==> state_call_count(st) + st.stack.len() + (
        if st.expecting_name {
            1nat
        } else {
            0nat
        }) <= open_count(toks, i),
    decreases i,
{
    if i > 0 {
        lemma_run_call_count(toks, i - 1);
        match parse_run(toks, i - 1) {
            Ok(st) => {
                let t = toks[i - 1];
                if st.expecting_name {
                    match t {
                        TokenView::Identifier(name) => {
                            lemma_frames_call_count_push(
                                st.stack,
                                FrameView { name, params: seq![] },
                            );
                        },
                        _ => {},
                    }
                } else {
                    match t {
                        TokenView::ClosingParenthesis => {
                            if st.stack.len() > 0 {
                                let fr = st.stack[st.stack.len() - 1];
                                let popped = ParseState {
                                    done: st.done,
                                    stack: st.stack.drop_last(),
                                    expecting_name: false,
                                };
                                let node = AstView::CallExpression {
                                    name: fr.name,
                                    params: fr.params,
                                };
                                lemma_state_emit_call_count(popped, node);
                            }
                        },
                        TokenView::Number(s) => {
                            lemma_state_emit_call_count(st, AstView::NumberLiteral(s));
                        },
                        TokenView::String(s) => {
                            lemma_state_emit_call_count(st, AstView::StringLiteral(s));
                        },
                        _ => {},
                    }
                }
            },
            Err(_) => {},
        }
    }
}

/// For any token sequence that parses, the number of call-expression
/// nodes in the resulting trees never exceeds the number of
/// opening-parenthesis tokens in the input.
pub proof fn lemma_parse_call_count_bound(toks: Seq<TokenView>)
    ensures
        spec_parse(toks) matches Ok(asts) ==> call_count_list(asts) <= opening_paren_count(toks),
{
    lemma_run_call_count(toks, toks.len() as int);
}

/// Every call-expression node in the tree, nested ones included, has a
/// non-empty name.
pub open spec fn ast_names_nonempty(a: AstView) -> bool
    decreases a, 1int,
{
    match a {
        AstView::CallExpression { name, params } => name.len() > 0 && ast_list_names_nonempty(
            params,
        ),
        AstView::NumberLiteral(_) => true,
        AstView::StringLiteral(_) => true,
    }
}

/// See [`ast_names_nonempty`], over a sequence of trees.
pub open spec fn ast_list_names_nonempty(l: Seq<AstView>) -> bool
    decreases l, 0int,
{
    if l.len() == 0 {
        true
    } else {
        ast_list_names_nonempty(l.drop_last()) && ast_names_nonempty(l.last())
    }
}

/// See [`ast_names_nonempty`], over every open call form of a parser
/// state: the names already taken and the parameters built so far.
pub open spec fn frames_names_nonempty(s: Seq<FrameView>) -> bool
    decreases s.len(),
{
    if s.len() == 0 {
        true
    } else {
        frames_names_nonempty(s.drop_last()) && s.last().name.len() > 0 && ast_list_names_nonempty(
            s.last().params,
        )
    }
}

proof fn lemma_ast_list_names_nonempty_push(l: Seq<AstView>, a: AstView)
    ensures
        ast_list_names_nonempty(l.push(a)) == (ast_list_names_nonempty(l) && ast_names_nonempty(
            a,
        )),
{
    assert(l.push(a).drop_last() =~= l);
}

proof fn lemma_frames_names_nonempty_push(s: Seq<FrameView>, f: FrameView)
    ensures
        frames_names_nonempty(s.push(f)) == (frames_names_nonempty(s) && f.name.len() > 0
            && ast_list_names_nonempty(f.params)),
{
    assert(s.push(f).drop_last() =~= s);
}

proof fn lemma_frames_names_nonempty_update_last(s: Seq<FrameView>, f: FrameView)
    requires
        s.len() > 0,
    ensures
        frames_names_nonempty(s.update(s.len() - 1, f)) == (frames_names_nonempty(s.drop_last())
            && f.name.len() > 0 && ast_list_names_nonempty(f.params)),
{
    assert(s.update(s.len() - 1, f).drop_last() =~= s.drop_last());
}

/// Filing a well-named node keeps every name in the state well-named.
proof fn lemma_state_emit_names_nonempty(st: ParseState, node: AstView)
    requires
        ast_list_names_nonempty(st.done),
        frames_names_nonempty(st.stack),
        ast_names_nonempty(node),
    ensures
        ast_list_names_nonempty(state_emit(st, node).done),
        frames_names_nonempty(state_emit(st, node).stack),
{
    if st.stack.len() == 0 {
        lemma_ast_list_names_nonempty_push(st.done, node);
    } else {
        let k = st.stack.len() - 1;
        let fr = st.stack[k];
        lemma_ast_list_names_nonempty_push(fr.params, node);
        lemma_frames_names_nonempty_update_last(
            st.stack,
            FrameView { name: fr.name, params: fr.params.push(node) },
        );
    }
}

/// Along any run of the parser over tokens whose identifiers are all
/// non-empty, every name in the state is non-empty.
proof fn lemma_run_names_nonempty(toks: Seq<TokenView>, i: int)
    requires
        0 <= i <= toks.len(),
        crate::tokenizer::identifiers_nonempty(toks),
    ensures
        parse_run(toks, i) matches Ok(st) ==> ast_list_names_nonempty(st.done)
            && frames_names_nonempty(st.stack),
    decreases i,
{
    if i > 0 {
        lemma_run_names_nonempty(toks, i - 1);
        match parse_run(toks, i - 1) {
            Ok(st) => {
                let t = toks[i - 1];
                assert(match t {
                    TokenView::Identifier(name) => name.len() > 0,
                    _ => true,
                });
                if st.expecting_name {
                    match t {
                        TokenView::Identifier(name) => {
                            lemma_frames_names_nonempty_push(
                                st.stack,
                                FrameView { name, params: seq![] },
                            );
                        },
                        _ => {},
                    }
                } else {
                    match t {
                        TokenView::ClosingParenthesis => {
                            if st.stack.len() > 0 {
                                let fr = st.stack[st.stack.len() - 1];
                                let popped = ParseState {
                                    done: st.done,
                                    stack: st.stack.drop_last(),
                                    expecting_name: false,
                                };
                                let node = AstView::CallExpression {
                                    name: fr.name,
                                    params: fr.params,
                                };
                                lemma_state_emit_names_nonempty(popped, node);
                            }
                        },
                        TokenView::Number(s) => {
                            lemma_state_emit_names_nonempty(st, AstView::NumberLiteral(s));
                        },
                        TokenView::String(s) => {
                            lemma_state_emit_names_nonempty(st, AstView::StringLiteral(s));
                        },
                        _ => {},
                    }
                }
            },
            Err(_) => {},
        }
    }
}

/// A call expression's name always comes from an identifier token, so
/// when no identifier token in the input is empty — and the scanner never
/// emits an empty one, see `lemma_spec_tokenize_identifiers_nonempty` —
/// every call-expression node in the parsed trees has a non-empty name.
pub proof fn lemma_parse_names_nonempty(toks: Seq<TokenView>)
    requires
        crate::tokenizer::identifiers_nonempty(toks),
    ensures
        spec_parse(toks) matches Ok(asts) ==> ast_list_names_nonempty(asts),
{
    lemma_run_names_nonempty(toks, toks.len() as int);
}

/// The front end is deterministic. The `ensures` of `tokenizer` and
/// `parse` pin each result to `spec_tokenize` and `spec_parse`, which are
/// functions of the input alone: two scans of the same text that succeed
/// yield equal token sequences, and those parse to equal outcomes, trees
/// and errors alike. So two runs of the whole front end on the same text
/// return structurally equal trees, or the same error.
pub proof fn lemma_front_end_deterministic(s: Seq<char>, t1: Seq<TokenView>, t2: Seq<TokenView>)
    requires
        crate::tokenizer::spec_tokenize(s) == Ok::<Seq<TokenView>, char>(t1),
        crate::tokenizer::spec_tokenize(s) == Ok::<Seq<TokenView>, char>(t2),
    ensures
        t1 == t2,
        spec_parse(t1) == spec_parse(t2),
{
}

} // verus!
