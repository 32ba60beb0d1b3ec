use vstd::prelude::*;
use crate::text::{chars_of, string_of};
use crate::tokenizer::{is_one, spec_tokens, token_views, tokenize, MathToken, TokenView};

verus! {

/// How operators of one precedence group.
#[derive(PartialEq, Eq, Structural, Debug, Clone, Copy)]
pub enum Assoc {
    Left,
    Right,
    Neither,
}

/// The precedence of a token on the operator stack and how it groups.
pub open spec fn spec_precedence(t: TokenView) -> (int, Assoc) {
    match t {
        TokenView::OParen => (1, Assoc::Left),
        TokenView::BOp(o) => if o == seq!['+'] || o == seq!['-'] {
            (2, Assoc::Left)
        } else if o == seq!['*'] || o == seq!['/'] || o == seq!['%'] {
            (3, Assoc::Left)
        } else if o == seq!['^'] {
            (5, Assoc::Right)
        } else {
            (99, Assoc::Neither)
        },
        TokenView::UOp(o) => if o == seq!['-'] {
            (5, Assoc::Right)
        } else if o == seq!['!'] {
            (6, Assoc::Left)
        } else {
            (99, Assoc::Neither)
        },
        TokenView::Function(_, _) => (7, Assoc::Left),
        _ => (99, Assoc::Neither),
    }
}

pub fn precedence(mt: &MathToken) -> (r: (usize, Assoc))
    ensures
        r.0 == spec_precedence(mt@).0,
        r.1 == spec_precedence(mt@).1,
{
    match mt {
        MathToken::OParen => (1, Assoc::Left),
        MathToken::BOp(o) => if is_one(o, '+') || is_one(o, '-') {
            (2, Assoc::Left)
        } else if is_one(o, '*') || is_one(o, '/') || is_one(o, '%') {
            (3, Assoc::Left)
        } else if is_one(o, '^') {
            (5, Assoc::Right)
        } else {
            (99, Assoc::Neither)
        },
        MathToken::UOp(o) => if is_one(o, '-') {
            (5, Assoc::Right)
        } else if is_one(o, '!') {
            (6, Assoc::Left)
        } else {
            (99, Assoc::Neither)
        },
        MathToken::Function(_, _) => (7, Assoc::Left),
        _ => (99, Assoc::Neither),
    }
}

/// An expression in reverse Polish notation.
#[derive(PartialEq, Debug)]
pub struct RPNExpr(pub Vec<MathToken>);

impl Clone for RPNExpr {
    fn clone(&self) -> (r: RPNExpr)
        ensures
            r@ == self@,
    {
        let mut tokens: Vec<MathToken> = Vec::new();
        let mut i: usize = 0;
        while i < self.0.len()
            invariant
                i <= self.0@.len(),
                token_views(tokens@) == token_views(self.0@).subrange(0, i as int),
            decreases self.0@.len() - i,
        {
            let t = self.0[i].clone();
            let ghost before = tokens@;
            tokens.push(t);
            assert(token_views(tokens@) =~= token_views(before).push(t@));
            assert(token_views(tokens@) =~= token_views(self.0@).subrange(0, i + 1));
            i += 1;
        }
        assert(token_views(self.0@).subrange(0, self.0@.len() as int) =~= token_views(self.0@));
        RPNExpr(tokens)
    }
}

impl View for RPNExpr {
    type V = Seq<TokenView>;

    open spec fn view(&self) -> Seq<TokenView> {
        token_views(self.0@)
    }
}

/// Why an expression cannot be put in reverse Polish notation.
pub enum Failure {
    MissingOpen,
    MissingClose,
    NoAssoc,
    BadToken(Seq<char>),
}

impl Failure {
    /// The message that reports the failure.
    pub open spec fn message(self) -> Seq<char> {
        match self {
            Failure::MissingOpen => "Missing Opening Paren"@,
            Failure::MissingClose => "Missing Closing Paren"@,
            Failure::NoAssoc => "No Associativity"@,
            Failure::BadToken(lexeme) => "Bad token: "@ + lexeme,
        }
    }
}

/// The state of the shunting yard: the output so far, the operators that
/// wait, and for each function call that is open the number of arguments
/// seen so far.
pub struct Yard {
    pub out: Seq<TokenView>,
    pub stack: Seq<TokenView>,
    pub arity: Seq<int>,
}

/// How many functions wait among `stack`.
pub open spec fn calls(stack: Seq<TokenView>) -> nat
    decreases stack.len(),
{
    if stack.len() == 0 {
        0
    } else {
        calls(stack.drop_last()) + (if stack.last() is Function { 1nat } else { 0nat })
    }
}

proof fn lemma_calls_push(stack: Seq<TokenView>, t: TokenView)
    ensures
        calls(stack.push(t)) == calls(stack) + (if t is Function { 1nat } else { 0nat }),
{
    assert(stack.push(t).drop_last() =~= stack);
}

impl Yard {
    /// Each function that waits has its count of arguments.
    pub open spec fn wf(self) -> bool {
        calls(self.stack) <= self.arity.len()
    }

    pub open spec fn empty() -> Yard {
        Yard { out: Seq::empty(), stack: Seq::empty(), arity: Seq::empty() }
    }

    /// The top of the stack moved to the output.
    pub open spec fn popped(self) -> Yard
        recommends
            self.stack.len() > 0,
    {
        Yard { out: self.out.push(self.stack.last()), stack: self.stack.drop_last(), ..self }
    }

    /// The operators above the innermost open parenthesis moved to the output.
    pub open spec fn unwound(self) -> Yard
        decreases self.stack.len(),
    {
        if self.stack.len() > 0 && !(self.stack.last() is OParen) {
            self.popped().unwound()
        } else {
            self
        }
    }

    /// The state after a comma (`closing` false) or a closing parenthesis:
    /// the group is unwound; a closing parenthesis removes the opening
    /// one and, if a function waits below it, sends the function to the
    /// output with the number of its arguments; a comma counts one more
    /// argument.
    pub open spec fn grouped(self, closing: bool) -> Result<Yard, Failure> {
        let u = self.unwound();
        if u.stack.len() == 0 {
            Err(Failure::MissingOpen)
        } else if closing {
            let below = u.stack.drop_last();
            if below.len() > 0 && below.last() is Function {
                Ok(
                    Yard {
                        out: u.out.push(
                            TokenView::Function(below.last()->Function_0, u.arity.last()),
                        ),
                        stack: below.drop_last(),
                        arity: u.arity.drop_last(),
                    },
                )
            } else {
                Ok(Yard { stack: below, ..u })
            }
        } else if u.arity.len() > 0 {
            Ok(Yard { arity: u.arity.update(u.arity.len() - 1, u.arity.last() + 1), ..u })
        } else {
            Ok(u)
        }
    }

    /// The state after the operators that bind tighter than `op`, or as
    /// tight where `op` groups to the left, moved to the output.
    pub open spec fn yielded(self, op: TokenView) -> Result<Yard, Failure>
        decreases self.stack.len(),
    {
        if self.stack.len() == 0 {
            Ok(self)
        } else {
            let lhs = spec_precedence(self.stack.last()).0;
            let rhs = spec_precedence(op);
            if lhs > rhs.0 || (lhs == rhs.0 && rhs.1 == Assoc::Left) {
                self.popped().yielded(op)
            } else if lhs < rhs.0 || rhs.1 == Assoc::Right {
                Ok(self)
            } else {
                Err(Failure::NoAssoc)
            }
        }
    }

    /// The state after one token.
    pub open spec fn step(self, t: TokenView) -> Result<Yard, Failure> {
        match t {
            TokenView::Number(_) | TokenView::Variable(_) => Ok(
                Yard { out: self.out.push(t), ..self },
            ),
            TokenView::OParen => Ok(Yard { stack: self.stack.push(t), ..self }),
            TokenView::Function(_, _) => Ok(
                Yard { stack: self.stack.push(t), arity: self.arity.push(1), ..self },
            ),
            TokenView::Comma => self.grouped(false),
            TokenView::CParen => self.grouped(true),
            TokenView::UOp(_) | TokenView::BOp(_) => match self.yielded(t) {
                Ok(y) => Ok(Yard { stack: y.stack.push(t), ..y }),
                Err(e) => Err(e),
            },
            TokenView::Unknown(lexeme) => Err(Failure::BadToken(lexeme)),
        }
    }

    /// The state after the tokens of `tokens` from index `from` on.
    pub open spec fn run(self, tokens: Seq<TokenView>, from: int) -> Result<Yard, Failure>
        decreases tokens.len() - from,
    {
        if 0 <= from < tokens.len() {
            match self.step(tokens[from]) {
                Ok(y) => y.run(tokens, from + 1),
                Err(e) => Err(e),
            }
        } else {
            Ok(self)
        }
    }

    /// The output once the operators that still wait have moved to it; an
    /// opening parenthesis among them was never closed.
    pub open spec fn drained(self) -> Result<Seq<TokenView>, Failure>
        decreases self.stack.len(),
    {
        if self.stack.len() == 0 {
            Ok(self.out)
        } else if self.stack.last() is OParen {
            Err(Failure::MissingClose)
        } else {
            self.popped().drained()
        }
    }
}

/// The reverse Polish notation of `tokens`, by the shunting yard.
pub open spec fn shunt(tokens: Seq<TokenView>) -> Result<Seq<TokenView>, Failure> {
    match Yard::empty().run(tokens, 0) {
        Ok(y) => y.drained(),
        Err(e) => Err(e),
    }
}

/// Whether `r` reports what `expected` says, an error by its message.
pub open spec fn reports(r: Result<RPNExpr, String>, expected: Result<Seq<TokenView>, Failure>)
    -> bool {
    match expected {
        Ok(out) => r matches Ok(e) && e@ == out,
        Err(f) => r matches Err(m) && m@ == f.message(),
    }
}

struct Shunter {
    out: Vec<MathToken>,
    stack: Vec<MathToken>,
    arity: Vec<usize>,
}

enum Stop {
    MissingOpen,
    MissingClose,
    NoAssoc,
    BadToken(String),
}

impl View for Stop {
    type V = Failure;

    closed spec fn view(&self) -> Failure {
        match self {
            Stop::MissingOpen => Failure::MissingOpen,
            Stop::MissingClose => Failure::MissingClose,
            Stop::NoAssoc => Failure::NoAssoc,
            Stop::BadToken(s) => Failure::BadToken(s@),
        }
    }
}

impl Stop {
    fn message(&self) -> (m: String)
        ensures
            m@ == self@.message(),
    {
        match self {
            Stop::MissingOpen => string_of(&chars_of("Missing Opening Paren")),
            Stop::MissingClose => string_of(&chars_of("Missing Closing Paren")),
            Stop::NoAssoc => string_of(&chars_of("No Associativity")),
            Stop::BadToken(lexeme) => {
                let mut m = chars_of("Bad token: ");
                let mut rest = chars_of(lexeme.as_str());
                m.append(&mut rest);
                string_of(&m)
            },
        }
    }
}

proof fn lemma_views_push(s: Seq<MathToken>, t: MathToken)
    ensures
        token_views(s.push(t)) == token_views(s).push(t@),
{
    assert(token_views(s.push(t)) =~= token_views(s).push(t@));
}

proof fn lemma_views_drop_last(s: Seq<MathToken>)
    requires
        s.len() > 0,
    ensures
        token_views(s.drop_last()) == token_views(s).drop_last(),
        token_views(s).last() == s.last()@,
{
    assert(token_views(s.drop_last()) =~= token_views(s).drop_last());
}

impl View for Shunter {
    type V = Yard;

    closed spec fn view(&self) -> Yard {
        Yard {
            out: token_views(self.out@),
            stack: token_views(self.stack@),
            arity: self.arity@.map_values(|a: usize| a as int),
        }
    }
}

impl Shunter {
    /// No count of arguments is above `n`.
    spec fn below(&self, n: int) -> bool {
        forall|i: int| 0 <= i < self.arity@.len() ==> self.arity@[i] <= n
    }

    fn pop_to_out(&mut self)
        requires
            old(self).stack@.len() > 0,
            old(self)@.wf(),
        ensures
            final(self)@.wf(),
            final(self)@ == old(self)@.popped(),
            final(self).arity == old(self).arity,
            final(self).stack@.len() == old(self).stack@.len() - 1,
    {
        proof {
            lemma_views_drop_last(self.stack@);
        }
        let t = self.stack.pop().unwrap();
        proof {
            lemma_views_push(self.out@, t);
        }
        self.out.push(t);
    }

    fn unwind(&mut self)
        requires
            old(self)@.wf(),
        ensures
            final(self)@.wf(),
            final(self)@ == old(self)@.unwound(),
            final(self).arity == old(self).arity,
    {
        while self.stack.len() > 0 && !matches!(self.stack[self.stack.len() - 1], MathToken::OParen)
            invariant
                self@.wf(),
                self@.unwound() == old(self)@.unwound(),
                self.arity == old(self).arity,
            decreases self.stack@.len(),
        {
            proof {
                lemma_views_drop_last(self.stack@);
            }
            self.pop_to_out();
        }
        proof {
            if self.stack@.len() > 0 {
                lemma_views_drop_last(self.stack@);
            }
        }
    }

    fn group(&mut self, closing: bool) -> (r: Result<(), Stop>)
        requires
            old(self).below(usize::MAX - 1),
            old(self)@.wf(),
        ensures
            r is Ok ==> final(self)@.wf(),
            match old(self)@.grouped(closing) {
                Ok(y) => r is Ok && final(self)@ == y,
                Err(f) => r matches Err(e) && e@ == f,
            },
            forall|n: int| old(self).below(n) ==> final(self).below(n + 1),
    {
        self.unwind();
        if self.stack.len() == 0 {
            return Err(Stop::MissingOpen);
        }
        if closing {
            proof {
                lemma_views_drop_last(self.stack@);
            }
            self.stack.pop();
            proof {
                let u = old(self)@.unwound();
                assert(calls(u.stack) >= calls(u.stack.drop_last()));
            }
            if self.stack.len() > 0 {
                let ghost below = self.stack@;
                proof {
                    lemma_views_drop_last(self.stack@);
                }
                let top = self.stack.pop().unwrap();
                match top {
                    MathToken::Function(name, _) => {
                        proof {
                            let u = old(self)@.unwound();
                            assert(calls(u.stack) >= calls(u.stack.drop_last()));
                            assert(calls(u.stack.drop_last()) == calls(
                                u.stack.drop_last().drop_last(),
                            ) + 1);
                        }
                        let n = self.arity.pop().unwrap();
                        let call = MathToken::Function(name, n);
                        proof {
                            lemma_views_push(self.out@, call);
                            assert(self@.arity =~= old(self)@.unwound().arity.drop_last());
                        }
                        self.out.push(call);
                    },
                    other => {
                        proof {
                            lemma_views_push(self.stack@, other);
                            assert(self.stack@.push(other) =~= below);
                            let u = old(self)@.unwound();
                            assert(calls(u.stack) >= calls(u.stack.drop_last()));
                        }
                        self.stack.push(other);
                    },
                }
            }
        } else if self.arity.len() > 0 {
            let k: usize = self.arity.len() - 1;
            let a: usize = self.arity[k];
            self.arity.set(k, a + 1);
            proof {
                assert(self@.arity =~= old(self)@.unwound().arity.update(k as int, a + 1));
            }
        }
        Ok(())
    }

    fn yield_to(&mut self, op: &MathToken) -> (r: Result<(), Stop>)
        requires
            old(self)@.wf(),
        ensures
            final(self)@.wf(),
            match old(self)@.yielded(op@) {
                Ok(y) => r is Ok && final(self)@ == y,
                Err(f) => r matches Err(e) && e@ == f,
            },
            final(self).arity == old(self).arity,
    {
        let rhs = precedence(op);
        while self.stack.len() > 0
            invariant
                self@.wf(),
                self@.yielded(op@) == old(self)@.yielded(op@),
                self.arity == old(self).arity,
                rhs.0 == spec_precedence(op@).0,
                rhs.1 == spec_precedence(op@).1,
            decreases self.stack@.len(),
        {
            proof {
                lemma_views_drop_last(self.stack@);
            }
            let lhs = precedence(&self.stack[self.stack.len() - 1]);
            if lhs.0 > rhs.0 {
                self.pop_to_out();
            } else if lhs.0 < rhs.0 {
                return Ok(());
            } else {
                match rhs.1 {
                    Assoc::Left => {
                        self.pop_to_out();
                    },
                    Assoc::Neither => {
                        return Err(Stop::NoAssoc);
                    },
                    Assoc::Right => {
                        return Ok(());
                    },
                }
            }
        }
        Ok(())
    }

    fn step(&mut self, token: MathToken) -> (r: Result<(), Stop>)
        requires
            old(self).below(usize::MAX - 1),
            old(self)@.wf(),
        ensures
            r is Ok ==> final(self)@.wf(),
            match old(self)@.step(token@) {
                Ok(y) => r is Ok && final(self)@ == y,
                Err(f) => r matches Err(e) && e@ == f,
            },
            forall|n: int| 0 <= n && old(self).below(n) ==> final(self).below(n + 1),
    {
        match token {
            MathToken::Number(_) | MathToken::Variable(_) => {
                proof {
                    lemma_views_push(self.out@, token);
                }
                self.out.push(token);
                Ok(())
            },
            MathToken::OParen => {
                proof {
                    lemma_views_push(self.stack@, token);
                    lemma_calls_push(self@.stack, token@);
                }
                self.stack.push(token);
                Ok(())
            },
            MathToken::Function(_, _) => {
                proof {
                    lemma_views_push(self.stack@, token);
                    lemma_calls_push(self@.stack, token@);
                    assert(self.arity@.push(1usize).map_values(|a: usize| a as int)
                        =~= self@.arity.push(1));
                }
                self.stack.push(token);
                self.arity.push(1);
                Ok(())
            },
            MathToken::Comma => self.group(false),
            MathToken::CParen => self.group(true),
            MathToken::UOp(_) | MathToken::BOp(_) => {
                match self.yield_to(&token) {
                    Ok(()) => {
                        proof {
                            lemma_views_push(self.stack@, token);
                            lemma_calls_push(self@.stack, token@);
                        }
                        self.stack.push(token);
                        Ok(())
                    },
                    Err(e) => Err(e),
                }
            },
            MathToken::Unknown(lexeme) => Err(Stop::BadToken(lexeme)),
        }
    }

    fn drain(self) -> (r: Result<Vec<MathToken>, Stop>)
        requires
            self@.wf(),
        ensures
            match self@.drained() {
                Ok(out) => r matches Ok(v) && token_views(v@) == out,
                Err(f) => r matches Err(e) && e@ == f,
            },
    {
        let mut yard = self;
        while yard.stack.len() > 0
            invariant
                yard@.wf(),
                yard@.drained() == self@.drained(),
            decreases yard.stack@.len(),
        {
            proof {
                lemma_views_drop_last(yard.stack@);
            }
            if matches!(yard.stack[yard.stack.len() - 1], MathToken::OParen) {
                return Err(Stop::MissingClose);
            }
            yard.pop_to_out();
        }
        Ok(yard.out)
    }
}

/// Turns infix expressions into reverse Polish notation.
pub struct ShuntingParser;

impl ShuntingParser {
    /// The reverse Polish notation of the expression `expr`, or the
    /// message of the first failure.
    pub fn parse_str(expr: &str) -> (r: Result<RPNExpr, String>)
        requires
            expr@.len() < isize::MAX,
        ensures
            reports(r, shunt(spec_tokens(expr@))),
    {
        let tokens = tokenize(expr);
        Self::parse(&tokens)
    }

    /// The reverse Polish notation of `lex`, or the message of the first
    /// failure.
    pub fn parse(lex: &Vec<MathToken>) -> (r: Result<RPNExpr, String>)
        ensures
            reports(r, shunt(token_views(lex@))),
    {
        let mut yard = Shunter { out: Vec::new(), stack: Vec::new(), arity: Vec::new() };
        assert(yard@.out =~= Seq::empty() && yard@.stack =~= Seq::empty() && yard@.arity
            =~= Seq::empty());
        let mut i: usize = 0;
        while i < lex.len()
            invariant
                i <= lex.len(),
                yard@.wf(),
                yard.below(i as int),
                yard@.run(token_views(lex@), i as int) == Yard::empty().run(token_views(lex@), 0),
            decreases lex.len() - i,
        {
            let token = lex[i].clone();
            assert(yard.below(usize::MAX - 1));
            assert(token_views(lex@)[i as int] == lex@[i as int]@);
            match yard.step(token) {
                Ok(()) => {},
                Err(e) => {
                    return Err(e.message());
                },
            }
            i += 1;
        }
        match yard.drain() {
            Ok(out) => Ok(RPNExpr(out)),
            Err(e) => Err(e.message()),
        }
    }
}

} // verus!
