use vstd::prelude::*;
use crate::scanner::is_white;
use crate::text::{chars_of, has_char, string_of};

verus! {

/// The first position from `pos` on that holds no white space.
pub open spec fn skip_space(text: Seq<char>, pos: int) -> int
    decreases text.len() - pos,
{
    if 0 <= pos < text.len() && is_white(text[pos]) {
        skip_space(text, pos + 1)
    } else {
        pos
    }
}

/// Whether `c` belongs to a word: it is neither white space nor an operator.
pub open spec fn in_word(ops: Seq<char>, c: char) -> bool {
    !is_white(c) && !ops.contains(c)
}

/// The end of the run of word characters that starts at `pos`.
pub open spec fn word_end(text: Seq<char>, ops: Seq<char>, pos: int) -> int
    decreases text.len() - pos,
{
    if 0 <= pos < text.len() && in_word(ops, text[pos]) {
        word_end(text, ops, pos + 1)
    } else {
        pos
    }
}

/// The lexeme that starts at or after `pos` and the position after it:
/// white space is passed over; an operator is a lexeme by itself; a
/// maximal run of other characters is one lexeme.
pub open spec fn next_lexeme(text: Seq<char>, ops: Seq<char>, pos: int) -> Option<
    (Seq<char>, int),
> {
    let p = skip_space(text, pos);
    if !(0 <= p < text.len()) {
        None
    } else if ops.contains(text[p]) {
        Some((seq![text[p]], p + 1))
    } else {
        Some((text.subrange(p, word_end(text, ops, p)), word_end(text, ops, p)))
    }
}

/// The lexemes of `text` from `pos` on.
pub open spec fn lexemes(text: Seq<char>, ops: Seq<char>, pos: int) -> Seq<Seq<char>>
    decreases text.len() - pos,
{
    match next_lexeme(text, ops, pos) {
        Some((l, q)) => if pos < q <= text.len() {
            seq![l] + lexemes(text, ops, q)
        } else {
            seq![l]
        },
        None => Seq::empty(),
    }
}

/// The views of a sequence of strings.
pub open spec fn string_views(s: Seq<String>) -> Seq<Seq<char>> {
    s.map_values(|l: String| l@)
}

/// Splits a text into lexemes, one at a time.
pub struct Lexer {
    text: Vec<char>,
    ops: Vec<char>,
    pos: usize,
}

impl Lexer {
    pub closed spec fn wf(&self) -> bool {
        self.pos <= self.text@.len()
    }

    /// The whole text.
    pub closed spec fn text(&self) -> Seq<char> {
        self.text@
    }

    /// The characters that are lexemes by themselves.
    pub closed spec fn operators(&self) -> Seq<char> {
        self.ops@
    }

    /// How much of the text is consumed.
    pub closed spec fn pos(&self) -> int {
        self.pos as int
    }

    /// The lexemes that are still to come.
    pub open spec fn remaining(&self) -> Seq<Seq<char>> {
        lexemes(self.text(), self.operators(), self.pos())
    }

    pub fn from_str(text: &str, operators: &str) -> (l: Lexer)
        ensures
            l.wf(),
            l.text() == text@,
            l.operators() == operators@,
            l.pos() == 0,
    {
        Lexer { text: chars_of(text), ops: chars_of(operators), pos: 0 }
    }

    /// The next lexeme, or `None` at the end of the text.
    pub fn next(&mut self) -> (lexeme: Option<String>)
        requires
            old(self).wf(),
        ensures
            final(self).wf(),
            final(self).text() == old(self).text(),
            final(self).operators() == old(self).operators(),
            match next_lexeme(old(self).text(), old(self).operators(), old(self).pos()) {
                Some((l, q)) => lexeme matches Some(s) && s@ == l && final(self).pos() == q
                    && old(self).pos() < q,
                None => lexeme is None && final(self).pos() == old(self).text().len(),
            },
    {
        let n = self.text.len();
        let mut p = self.pos;
        while p < n && is_space(self.text[p])
            invariant
                n == self.text@.len(),
                self.pos <= p <= n,
                skip_space(self.text@, p as int) == skip_space(self.text@, self.pos as int),
            decreases n - p,
        {
            p += 1;
        }
        if p >= n {
            self.pos = n;
            return None;
        }
        let start = p;
        let mut word: Vec<char> = Vec::new();
        if has_char(self.ops.as_slice(), self.text[p]) {
            word.push(self.text[p]);
            self.pos = p + 1;
            assert(word@ =~= seq![self.text@[p as int]]);
            return Some(string_of(&word));
        }
        while p < n && !is_space(self.text[p]) && !has_char(self.ops.as_slice(), self.text[p])
            invariant
                n == self.text@.len(),
                start <= p <= n,
                word_end(self.text@, self.ops@, p as int) == word_end(
                    self.text@,
                    self.ops@,
                    start as int,
                ),
                word@ == self.text@.subrange(start as int, p as int),
            decreases n - p,
        {
            word.push(self.text[p]);
            p += 1;
            assert(word@ =~= self.text@.subrange(start as int, p as int));
        }
        self.pos = p;
        Some(string_of(&word))
    }

    /// The lexemes that are left, in order.
    pub fn rest(&mut self) -> (all: Vec<String>)
        requires
            old(self).wf(),
        ensures
            final(self).wf(),
            string_views(all@) == old(self).remaining(),
    {
        let mut all: Vec<String> = Vec::new();
        loop
            invariant_except_break
                string_views(all@) + self.remaining() == old(self).remaining(),
            invariant
                self.wf(),
            ensures
                string_views(all@) == old(self).remaining(),
            decreases self.text().len() - self.pos(),
        {
            let ghost before = string_views(all@);
            let ghost rest = self.remaining();
            match self.next() {
                Some(l) => {
                    all.push(l);
                    proof {
                        assert(string_views(all@) =~= before.push(l@));
                        assert(before.push(l@) + self.remaining() =~= before + rest);
                    }
                },
                None => {
                    proof {
                        assert(before + rest =~= before);
                    }
                    break;
                },
            }
        }
        all
    }
}

fn is_space(c: char) -> (r: bool)
    ensures
        r == is_white(c),
{
    c == ' ' || c == '\n' || c == '\r' || c == '\t'
}

} // verus!
