use vstd::prelude::*;
use crate::scanner::{class, CharClass, ScanView, Scanner};
use crate::text::{chars_of, same_chars};

verus! {

/// A token of a mathematical expression. A number keeps its text as it
/// was written.
#[derive(Debug, PartialEq)]
pub enum MathToken {
    Unknown(String),
    Number(String),
    Variable(String),
    Function(String, usize),
    UOp(String),
    BOp(String),
    OParen,
    CParen,
    Comma,
}

/// A token as plain values.
pub enum TokenView {
    Unknown(Seq<char>),
    Number(Seq<char>),
    Variable(Seq<char>),
    Function(Seq<char>, int),
    UOp(Seq<char>),
    BOp(Seq<char>),
    OParen,
    CParen,
    Comma,
}

impl View for MathToken {
    type V = TokenView;

    open spec fn view(&self) -> TokenView {
        match self {
            MathToken::Unknown(s) => TokenView::Unknown(s@),
            MathToken::Number(s) => TokenView::Number(s@),
            MathToken::Variable(s) => TokenView::Variable(s@),
            MathToken::Function(s, n) => TokenView::Function(s@, *n as int),
            MathToken::UOp(s) => TokenView::UOp(s@),
            MathToken::BOp(s) => TokenView::BOp(s@),
            MathToken::OParen => TokenView::OParen,
            MathToken::CParen => TokenView::CParen,
            MathToken::Comma => TokenView::Comma,
        }
    }
}

impl Clone for MathToken {
    fn clone(&self) -> (r: MathToken)
        ensures
            r@ == self@,
    {
        match self {
            MathToken::Unknown(s) => MathToken::Unknown(s.clone()),
            MathToken::Number(s) => MathToken::Number(s.clone()),
            MathToken::Variable(s) => MathToken::Variable(s.clone()),
            MathToken::Function(s, n) => MathToken::Function(s.clone(), *n),
            MathToken::UOp(s) => MathToken::UOp(s.clone()),
            MathToken::BOp(s) => MathToken::BOp(s.clone()),
            MathToken::OParen => MathToken::OParen,
            MathToken::CParen => MathToken::CParen,
            MathToken::Comma => MathToken::Comma,
        }
    }
}

/// The views of a sequence of tokens.
pub open spec fn token_views(s: Seq<MathToken>) -> Seq<TokenView> {
    s.map_values(|t: MathToken| t@)
}

impl TokenView {
    /// Whether a `-` that follows this token is a sign, not a subtraction.
    pub open spec fn makes_unary(self) -> bool {
        !(self is Number || self is Variable || self is CParen)
    }
}

/// The token that an operator's text stands for; `unary` says whether a
/// `-` here is a sign.
pub open spec fn op_token(lexeme: Seq<char>, unary: bool) -> TokenView {
    if lexeme == seq!['('] {
        TokenView::OParen
    } else if lexeme == seq![')'] {
        TokenView::CParen
    } else if lexeme == seq![','] {
        TokenView::Comma
    } else if lexeme == seq!['!'] {
        TokenView::UOp(lexeme)
    } else if lexeme == seq!['-'] && unary {
        TokenView::UOp(lexeme)
    } else {
        TokenView::BOp(lexeme)
    }
}

/// The token that a number's text stands for: a number, unless it ends in
/// `i`, which no real number does.
pub open spec fn number_token(lexeme: Seq<char>) -> TokenView {
    if lexeme.len() > 0 && lexeme.last() == 'i' {
        TokenView::Unknown(lexeme)
    } else {
        TokenView::Number(lexeme)
    }
}

/// The next token of the text that `v` holds and the state after it, or
/// `None` where only white space is left.
pub open spec fn lex_one(v: ScanView, unary: bool) -> Option<(TokenView, ScanView)> {
    let start = v.skipped(class(CharClass::White)).extracted();
    match start.math_op() {
        Some(end) => Some((op_token(end.lexeme(), unary), end.extracted())),
        None => {
            let s1 = start.math_op_miss();
            match s1.identifier() {
                Some(end) => {
                    let rest = end.extracted();
                    let name = end.lexeme();
                    if rest.has_next() && rest.text[rest.pos + 1] == '(' {
                        Some((TokenView::Function(name, 0), rest.stepped().at(rest.pos)))
                    } else {
                        Some((TokenView::Variable(name), rest.stepped().at(rest.pos)))
                    }
                },
                None => {
                    let s2 = s1.identifier_miss();
                    match s2.number() {
                        Some(end) => Some((number_token(end.lexeme()), end.extracted())),
                        None => {
                            let s3 = s2.number_miss();
                            if s3.has_next() {
                                Some(
                                    (
                                        TokenView::Unknown(s3.stepped().lexeme()),
                                        s3.stepped().extracted(),
                                    ),
                                )
                            } else {
                                None
                            }
                        },
                    }
                },
            }
        },
    }
}

/// Splits the text of a mathematical expression into tokens.
pub struct MathTokenizer {
    src: Scanner,
    unary: bool,
}

pub(crate) fn is_one(s: &String, c: char) -> (r: bool)
    ensures
        r == (s@ == seq![c]),
{
    let v = chars_of(s.as_str());
    let r = v.len() == 1 && v[0] == c;
    proof {
        if r {
            assert(s@ =~= seq![c]);
        }
    }
    r
}

fn ends_in(s: &String, c: char) -> (r: bool)
    ensures
        r == (s@.len() > 0 && s@.last() == c),
{
    let v = chars_of(s.as_str());
    v.len() > 0 && v[v.len() - 1] == c
}

impl MathTokenizer {
    pub closed spec fn wf(&self) -> bool {
        self.src.wf()
    }

    /// The scanner's state.
    pub closed spec fn scan(&self) -> ScanView {
        self.src@
    }

    /// Whether a `-` that comes next is a sign.
    pub closed spec fn unary(&self) -> bool {
        self.unary
    }

    pub fn new(source: Vec<char>) -> (t: MathTokenizer)
        requires
            source.len() < isize::MAX,
        ensures
            t.wf(),
            t.scan() == (ScanView { text: source@, loaded: 0, pos: -1 }),
            t.unary(),
    {
        MathTokenizer { src: Scanner::new(source), unary: true }
    }

    /// The next token, or `None` at the end of the text.
    pub fn next(&mut self) -> (token: Option<MathToken>)
        requires
            old(self).wf(),
        ensures
            final(self).wf(),
            match lex_one(old(self).scan(), old(self).unary()) {
                Some((t, after)) => token matches Some(tok) && tok@ == t && final(self).scan()
                    == after && final(self).unary() == t.makes_unary(),
                None => token is None && final(self).unary(),
            },
            token is Some ==> final(self).scan().text.len() < old(self).scan().text.len(),
    {
        proof {
            old(self).src.lemma_wf_view();
            old(self).src@.lemma_skipped(class(CharClass::White));
        }
        self.src.scan_whitespace();
        let token = self.get_token();
        self.unary = match &token {
            Some(MathToken::Number(_)) => false,
            Some(MathToken::Variable(_)) => false,
            Some(MathToken::CParen) => false,
            _ => true,
        };
        token
    }

    fn get_token(&mut self) -> (token: Option<MathToken>)
        requires
            old(self).wf(),
            old(self).scan().pos == -1,
        ensures
            final(self).wf(),
            final(self).unary() == old(self).unary(),
            ({
                let start = old(self).scan();
                let unary = old(self).unary();
                match start.math_op() {
                    Some(end) => token matches Some(tok) && tok@ == op_token(end.lexeme(), unary)
                        && final(self).scan() == end.extracted(),
                    None => {
                        let s1 = start.math_op_miss();
                        match s1.identifier() {
                            Some(end) => {
                                let rest = end.extracted();
                                let name = end.lexeme();
                                &&& final(self).scan() == rest.stepped().at(rest.pos)
                                &&& token matches Some(tok) && tok@ == (if rest.has_next()
                                    && rest.text[rest.pos + 1] == '(' {
                                    TokenView::Function(name, 0)
                                } else {
                                    TokenView::Variable(name)
                                })
                            },
                            None => {
                                let s2 = s1.identifier_miss();
                                match s2.number() {
                                    Some(end) => token matches Some(tok) && tok@ == number_token(
                                        end.lexeme(),
                                    ) && final(self).scan() == end.extracted(),
                                    None => {
                                        let s3 = s2.number_miss();
                                        if s3.has_next() {
                                            token matches Some(tok) && tok@ == TokenView::Unknown(
                                                s3.stepped().lexeme(),
                                            ) && final(self).scan() == s3.stepped().extracted()
                                        } else {
                                            token is None
                                        }
                                    },
                                }
                            },
                        }
                    },
                }
            }),
            token is Some ==> final(self).scan().text.len() < old(self).scan().text.len(),
    {
        if let Some(op) = self.src.scan_math_op() {
            let token = if is_one(&op, '(') {
                MathToken::OParen
            } else if is_one(&op, ')') {
                MathToken::CParen
            } else if is_one(&op, ',') {
                MathToken::Comma
            } else if is_one(&op, '!') {
                MathToken::UOp(op)
            } else if is_one(&op, '-') && self.unary {
                MathToken::UOp(op)
            } else {
                MathToken::BOp(op)
            };
            return Some(token);
        }
        if let Some(id) = self.src.scan_identifier() {
            return match self.src.peek() {
                Some('(') => Some(MathToken::Function(id, 0)),
                _ => Some(MathToken::Variable(id)),
            };
        }
        if let Some(num) = self.src.scan_number() {
            if ends_in(&num, 'i') {
                return Some(MathToken::Unknown(num));
            }
            return Some(MathToken::Number(num));
        }
        proof {
            self.src.lemma_wf_view();
        }
        if self.src.next().is_some() {
            return Some(MathToken::Unknown(self.src.extract_string()));
        }
        None
    }
}

/// The tokens of the text that `v` holds, from first to last.
pub open spec fn lex_all(v: ScanView, unary: bool) -> Seq<TokenView>
    decreases v.text.len(),
{
    match lex_one(v, unary) {
        Some((t, after)) => if after.text.len() < v.text.len() {
            seq![t] + lex_all(after, t.makes_unary())
        } else {
            seq![t]
        },
        None => Seq::empty(),
    }
}

/// The tokens of `expr`.
pub open spec fn spec_tokens(expr: Seq<char>) -> Seq<TokenView> {
    lex_all(ScanView { text: expr, loaded: 0, pos: -1 }, true)
}

/// Splits `expr` into its tokens.
pub fn tokenize(expr: &str) -> (tokens: Vec<MathToken>)
    requires
        expr@.len() < isize::MAX,
    ensures
        token_views(tokens@) == spec_tokens(expr@),
{
    let mut lexer = MathTokenizer::new(chars_of(expr));
    let mut tokens: Vec<MathToken> = Vec::new();
    loop
        invariant_except_break
            token_views(tokens@) + lex_all(lexer.scan(), lexer.unary()) == spec_tokens(expr@),
        invariant
            lexer.wf(),
        ensures
            token_views(tokens@) == spec_tokens(expr@),
        decreases lexer.scan().text.len(),
    {
        let ghost before = token_views(tokens@);
        let ghost rest = lex_all(lexer.scan(), lexer.unary());
        match lexer.next() {
            Some(t) => {
                tokens.push(t);
                proof {
                    let after = lex_all(lexer.scan(), lexer.unary());
                    assert(rest == seq![t@] + after);
                    assert(token_views(tokens@) =~= before.push(t@));
                    assert(before.push(t@) + after =~= before + rest);
                }
            },
            None => {
                proof {
                    assert(rest =~= Seq::<TokenView>::empty());
                    assert(before + rest =~= before);
                }
                break;
            },
        }
    }
    tokens
}

} // verus!
