use vstd::prelude::*;
use crate::text::{has_char, string_of};

verus! {

/// What a scanner holds, as plain values: the text that has not been
/// extracted yet, how many of its characters are in the buffer, and the
/// cursor into the buffer (-1 before the first character).
pub struct ScanView {
    pub text: Seq<char>,
    pub loaded: int,
    pub pos: int,
}

pub open spec fn is_white(c: char) -> bool {
    c == ' ' || c == '\n' || c == '\r' || c == '\t'
}

pub open spec fn is_digit(c: char) -> bool {
    '0' <= c <= '9'
}

pub open spec fn is_alpha(c: char) -> bool {
    c == '_' || 'a' <= c <= 'z' || 'A' <= c <= 'Z'
}

pub open spec fn is_alnum(c: char) -> bool {
    is_alpha(c) || is_digit(c)
}

pub open spec fn is_sign(c: char) -> bool {
    c == '+' || c == '-'
}

pub open spec fn is_exp(c: char) -> bool {
    c == 'e' || c == 'E'
}

pub open spec fn is_rel(c: char) -> bool {
    c == '>' || c == '=' || c == '<'
}

pub open spec fn is_op(c: char) -> bool {
    c == '+' || c == '-' || c == '*' || c == '/' || c == '%' || c == '^' || c == '!' || c == '('
        || c == ')' || c == ','
}

/// The character classes that the scanning functions look for.
#[derive(Clone, Copy, Debug)]
pub enum CharClass {
    White,
    Digit,
    Alpha,
    Alnum,
    Sign,
    Exp,
    Rel,
    Op,
    Just(char),
}

impl CharClass {
    pub open spec fn has(self, c: char) -> bool {
        match self {
            CharClass::White => is_white(c),
            CharClass::Digit => is_digit(c),
            CharClass::Alpha => is_alpha(c),
            CharClass::Alnum => is_alnum(c),
            CharClass::Sign => is_sign(c),
            CharClass::Exp => is_exp(c),
            CharClass::Rel => is_rel(c),
            CharClass::Op => is_op(c),
            CharClass::Just(d) => c == d,
        }
    }


    pub fn holds(&self, c: char) -> (r: bool)
        ensures
            r == self.has(c),
    {
        match self {
            CharClass::White => c == ' ' || c == '\n' || c == '\r' || c == '\t',
            CharClass::Digit => '0' <= c && c <= '9',
            CharClass::Alpha => c == '_' || ('a' <= c && c <= 'z') || ('A' <= c && c <= 'Z'),
            CharClass::Alnum => c == '_' || ('a' <= c && c <= 'z') || ('A' <= c && c <= 'Z') || (
            '0' <= c && c <= '9'),
            CharClass::Sign => c == '+' || c == '-',
            CharClass::Exp => c == 'e' || c == 'E',
            CharClass::Rel => c == '>' || c == '=' || c == '<',
            CharClass::Op => c == '+' || c == '-' || c == '*' || c == '/' || c == '%' || c == '^'
                || c == '!' || c == '(' || c == ')' || c == ',',
            CharClass::Just(d) => c == *d,
        }
    }
}

/// A set of characters: a class, or the characters of a sequence.
pub enum Members {
    Class(CharClass),
    Of(Seq<char>),
}

impl Members {
    pub open spec fn has(self, c: char) -> bool {
        match self {
            Members::Class(class) => class.has(c),
            Members::Of(chars) => chars.contains(c),
        }
    }
}

/// The characters of class `k`.
pub open spec fn class(k: CharClass) -> Members {
    Members::Class(k)
}

/// The character `c` alone.
pub open spec fn just(c: char) -> Members {
    Members::Class(CharClass::Just(c))
}

impl ScanView {
    pub open spec fn wf(self) -> bool {
        0 <= self.loaded <= self.text.len() && -1 <= self.pos <= self.loaded
    }

    /// Whether a character follows the cursor.
    pub open spec fn has_next(self) -> bool {
        self.pos + 1 < self.text.len()
    }

    /// The state after one step forward: the cursor moves to the next
    /// character, which is loaded if it was not, or to the end of the text.
    pub open spec fn stepped(self) -> ScanView {
        if self.has_next() {
            ScanView {
                text: self.text,
                loaded: if self.loaded > self.pos + 2 { self.loaded } else { self.pos + 2 },
                pos: self.pos + 1,
            }
        } else {
            ScanView { text: self.text, loaded: self.text.len() as int, pos: self.text.len() as int }
        }
    }

    /// The character under the cursor, if there is one.
    pub open spec fn current(self) -> Option<char> {
        if 0 <= self.pos < self.loaded {
            Some(self.text[self.pos])
        } else {
            None
        }
    }

    /// Whether the next character exists and is one of `members`.
    pub open spec fn accepts(self, members: Members) -> bool {
        self.has_next() && members.has(self.text[self.pos + 1])
    }

    /// The state after trying to accept one of `members`: one step forward
    /// where the next character is one, else the cursor stays (the look
    /// ahead stays loaded).
    pub open spec fn accepted(self, members: Members) -> ScanView {
        if self.accepts(members) {
            self.stepped()
        } else {
            ScanView { pos: self.pos, ..self.stepped() }
        }
    }

    /// The state after accepting members of `members` for as long as they come.
    pub open spec fn skipped(self, members: Members) -> ScanView
        decreases self.text.len() - self.pos,
    {
        if self.accepts(members) {
            self.stepped().skipped(members)
        } else {
            self.accepted(members)
        }
    }

    /// Skipping keeps the text and never moves the cursor back.
    pub proof fn lemma_skipped(self, members: Members)
        requires
            self.wf(),
        ensures
            self.skipped(members).wf(),
            self.skipped(members).text == self.text,
            self.pos <= self.skipped(members).pos,
            self.skipped(members).loaded >= self.loaded,
        decreases self.text.len() - self.pos,
    {
        if self.accepts(members) {
            self.stepped().lemma_skipped(members);
        }
    }

    /// The cursor moved to `pos`.
    pub open spec fn at(self, pos: int) -> ScanView {
        ScanView { pos, ..self }
    }

    /// How many characters an extraction takes: those up to the cursor.
    pub open spec fn taken(self) -> int {
        if self.pos + 1 < self.loaded { self.pos + 1 } else { self.loaded }
    }

    /// The characters that an extraction takes.
    pub open spec fn lexeme(self) -> Seq<char> {
        self.text.subrange(0, self.taken())
    }

    /// The state after an extraction.
    pub open spec fn extracted(self) -> ScanView {
        ScanView {
            text: self.text.skip(self.taken()),
            loaded: self.loaded - self.taken(),
            pos: -1,
        }
    }

    /// The state in which a number ends, if one starts after the cursor:
    /// an optional sign, digits, an optional fraction, an optional exponent
    /// and an optional `i`.
    pub open spec fn number(self) -> Option<ScanView> {
        let signed = self.accepted(class(CharClass::Sign));
        let int_part = signed.skipped(class(CharClass::Digit));
        if int_part.pos == signed.pos {
            None
        } else {
            let dot = int_part.accepted(just('.'));
            let frac = dot.skipped(class(CharClass::Digit));
            if dot.pos != int_part.pos && frac.pos == dot.pos {
                Some(frac.at(int_part.pos))
            } else {
                let base = if dot.pos != int_part.pos { frac } else { dot };
                let e = base.accepted(class(CharClass::Exp));
                if e.pos != base.pos {
                    let esign = e.accepted(class(CharClass::Sign));
                    let edigits = esign.skipped(class(CharClass::Digit));
                    if edigits.pos == esign.pos {
                        Some(edigits.at(base.pos))
                    } else {
                        Some(edigits.accepted(just('i')))
                    }
                } else {
                    Some(e.accepted(just('i')))
                }
            }
        }
    }

    /// The state in which an operator ends, if one starts after the cursor:
    /// a relation with an optional `=`, `*` or `**`, or one of the single
    /// character operators.
    pub open spec fn math_op(self) -> Option<ScanView> {
        let rel = self.accepted(class(CharClass::Rel));
        if rel.pos != self.pos {
            Some(rel.accepted(just('=')))
        } else {
            let star = rel.accepted(just('*'));
            if star.pos != rel.pos {
                Some(star.accepted(just('*')))
            } else {
                let op = star.accepted(class(CharClass::Op));
                if op.pos != star.pos {
                    Some(op)
                } else {
                    None
                }
            }
        }
    }

    /// The state that a failed search for a number leaves: the cursor where
    /// it was, the look ahead loaded.
    pub open spec fn number_miss(self) -> ScanView {
        self.accepted(class(CharClass::Sign)).skipped(class(CharClass::Digit)).at(self.pos)
    }

    /// The state that a failed search for an operator leaves.
    pub open spec fn math_op_miss(self) -> ScanView {
        self.accepted(class(CharClass::Rel)).accepted(just('*')).accepted(class(CharClass::Op))
    }

    /// The state that a failed search for an identifier leaves.
    pub open spec fn identifier_miss(self) -> ScanView {
        self.accepted(class(CharClass::Alpha))
    }

    /// The cursor is inside the loaded part or just before it.
    pub open spec fn settled(self) -> bool {
        self.pos + 1 <= self.loaded
    }

    /// The state in which an identifier ends, if one starts after the cursor.
    pub open spec fn identifier(self) -> Option<ScanView> {
        let first = self.accepted(class(CharClass::Alpha));
        if first.pos != self.pos {
            Some(first.skipped(class(CharClass::Alnum)))
        } else {
            None
        }
    }
}

/// A cursor over characters with a buffer for backtracking.
pub struct Scanner {
    src: Vec<char>,
    base: usize,
    filled: usize,
    cursor: usize,
}

impl View for Scanner {
    type V = ScanView;

    closed spec fn view(&self) -> ScanView {
        ScanView {
            text: self.src@.skip(self.base as int),
            loaded: self.filled - self.base,
            pos: self.cursor - 1,
        }
    }
}

impl Scanner {
    /// The representation is consistent; implies that the view is well formed.
    pub closed spec fn wf(&self) -> bool {
        &&& self.base <= self.filled <= self.src.len()
        &&& self.cursor <= self.filled - self.base + 1
        &&& self.src.len() < isize::MAX
    }

    pub proof fn lemma_wf_view(&self)
        requires
            self.wf(),
        ensures
            self@.wf(),
            self@.text.len() < isize::MAX,
    {
    }

    pub fn new(source: Vec<char>) -> (s: Scanner)
        requires
            source.len() < isize::MAX,
        ensures
            s.wf(),
            s@ == (ScanView { text: source@, loaded: 0, pos: -1 }),
    {
        let s = Scanner { src: source, base: 0, filled: 0, cursor: 0 };
        assert(s.src@.skip(0) =~= source@);
        s
    }

    /// The cursor's position in the buffer, to go back to later.
    pub fn buffer_pos(&self) -> (pos: isize)
        requires
            self.wf(),
        ensures
            pos == self@.pos,
    {
        if self.cursor == 0 {
            -1
        } else {
            (self.cursor - 1) as isize
        }
    }

    /// Moves the cursor to `pos` if that is inside the buffer or just
    /// beside it, and says whether it did.
    pub fn set_buffer_pos(&mut self, pos: isize) -> (moved: bool)
        requires
            old(self).wf(),
        ensures
            final(self).wf(),
            moved == (-1 <= pos <= old(self)@.loaded),
            moved ==> final(self)@ == old(self)@.at(pos as int),
            !moved ==> final(self)@ == old(self)@,
    {
        if pos < -1 || pos > ((self.filled - self.base) as isize) {
            return false;
        }
        self.cursor = (pos + 1) as usize;
        true
    }

    /// The character under the cursor.
    pub fn current(&self) -> (c: Option<char>)
        requires
            self.wf(),
        ensures
            c == self@.current(),
    {
        if self.cursor == 0 || self.cursor - 1 >= self.filled - self.base {
            return None;
        }
        Some(self.src[self.base + self.cursor - 1])
    }

    /// Steps forward and returns the character then under the cursor.
    pub fn next(&mut self) -> (c: Option<char>)
        requires
            old(self).wf(),
        ensures
            final(self).wf(),
            final(self)@ == old(self)@.stepped(),
            c == (if old(self)@.has_next() {
                Some(old(self)@.text[old(self)@.pos + 1])
            } else {
                None
            }),
    {
        if self.cursor < self.src.len() - self.base {
            let c = self.src[self.base + self.cursor];
            if self.filled < self.base + self.cursor + 1 {
                self.filled = self.base + self.cursor + 1;
            }
            self.cursor = self.cursor + 1;
            Some(c)
        } else {
            self.filled = self.src.len();
            self.cursor = self.src.len() - self.base + 1;
            None
        }
    }

    /// The next character, without moving the cursor (it is loaded).
    pub fn peek(&mut self) -> (c: Option<char>)
        requires
            old(self).wf(),
        ensures
            final(self).wf(),
            final(self)@ == old(self)@.stepped().at(old(self)@.pos),
            c == (if old(self)@.has_next() {
                Some(old(self)@.text[old(self)@.pos + 1])
            } else {
                None
            }),
    {
        let backtrack = self.cursor;
        let peeked = self.next();
        self.cursor = backtrack;
        peeked
    }

    /// Takes the characters up to the cursor out of the buffer.
    pub fn extract(&mut self) -> (taken: Vec<char>)
        requires
            old(self).wf(),
        ensures
            final(self).wf(),
            taken@ == old(self)@.lexeme(),
            final(self)@ == old(self)@.extracted(),
    {
        let split: usize = if self.cursor < self.filled - self.base {
            self.cursor
        } else {
            self.filled - self.base
        };
        let mut taken: Vec<char> = Vec::new();
        let mut i: usize = 0;
        while i < split
            invariant
                self.wf(),
                i <= split <= self.filled - self.base,
                taken@ == self@.text.subrange(0, i as int),
            decreases split - i,
        {
            taken.push(self.src[self.base + i]);
            i += 1;
        }
        proof {
            assert(self.src@.skip(self.base + split) =~= self@.text.skip(split as int));
        }
        self.base = self.base + split;
        self.cursor = 0;
        taken
    }

    /// As `extract`, into a `String`.
    pub fn extract_string(&mut self) -> (taken: String)
        requires
            old(self).wf(),
        ensures
            final(self).wf(),
            taken@ == old(self)@.lexeme(),
            final(self)@ == old(self)@.extracted(),
    {
        let v = self.extract();
        string_of(&v)
    }

    /// Steps forward only if the next character is `what`.
    pub fn accept(&mut self, what: &char) -> (c: Option<char>)
        requires
            old(self).wf(),
        ensures
            final(self).wf(),
            final(self)@ == old(self)@.accepted(just(*what)),
            c == (if old(self)@.accepts(just(*what)) {
                Some(*what)
            } else {
                None
            }),
    {
        let backtrack = self.cursor;
        if let Some(next) = self.next() {
            if next == *what {
                return Some(next);
            }
        }
        self.cursor = backtrack;
        None
    }

    /// Steps forward only if the next character is in `any`.
    pub fn accept_any(&mut self, any: &[char]) -> (c: Option<char>)
        requires
            old(self).wf(),
        ensures
            final(self).wf(),
            final(self)@ == old(self)@.accepted(Members::Of(any@)),
            c == (if old(self)@.accepts(Members::Of(any@)) {
                Some(old(self)@.text[old(self)@.pos + 1])
            } else {
                None
            }),
    {
        let backtrack = self.cursor;
        if let Some(next) = self.next() {
            if has_char(any, next) {
                return Some(next);
            }
        }
        self.cursor = backtrack;
        None
    }

    /// Steps forward only if the next character is of `class`.
    pub fn accept_class(&mut self, class: CharClass) -> (hit: bool)
        requires
            old(self).wf(),
        ensures
            final(self).wf(),
            final(self)@ == old(self)@.accepted(Members::Class(class)),
            hit == old(self)@.accepts(Members::Class(class)),
            hit == (final(self)@.pos != old(self)@.pos),
    {
        let backtrack = self.cursor;
        if let Some(next) = self.next() {
            if class.holds(next) {
                return true;
            }
        }
        self.cursor = backtrack;
        false
    }

    /// Steps over the characters of `over` and says whether it moved.
    pub fn skip_all(&mut self, over: &[char]) -> (advanced: bool)
        requires
            old(self).wf(),
        ensures
            final(self).wf(),
            final(self)@ == old(self)@.skipped(Members::Of(over@)),
            final(self)@.text == old(self)@.text,
            final(self)@.pos >= old(self)@.pos,
            final(self)@.loaded >= old(self)@.loaded,
            advanced ==> final(self)@.settled(),
            advanced == (final(self)@.pos != old(self)@.pos),
    {
        let mut advanced = false;
        loop
            invariant
                self.wf(),
                self@.text == old(self)@.text,
                self@.skipped(Members::Of(over@)) == old(self)@.skipped(Members::Of(over@)),
                self@.pos >= old(self)@.pos,
                self@.loaded >= old(self)@.loaded,
                advanced ==> self@.settled(),
                advanced == (self@.pos != old(self)@.pos),
            ensures
                self.wf(),
                self@ == old(self)@.skipped(Members::Of(over@)),
                self@.text == old(self)@.text,
                self@.pos >= old(self)@.pos,
                self@.loaded >= old(self)@.loaded,
                advanced ==> self@.settled(),
                advanced == (self@.pos != old(self)@.pos),
            decreases self@.text.len() - self@.pos,
        {
            if self.accept_any(over).is_none() {
                break;
            }
            advanced = true;
        }
        advanced
    }

    /// Steps over the characters of `class` and says whether it moved.
    pub fn skip_class(&mut self, class: CharClass) -> (advanced: bool)
        requires
            old(self).wf(),
        ensures
            final(self).wf(),
            final(self)@ == old(self)@.skipped(Members::Class(class)),
            final(self)@.text == old(self)@.text,
            final(self)@.pos >= old(self)@.pos,
            final(self)@.loaded >= old(self)@.loaded,
            advanced ==> final(self)@.settled(),
            advanced == (final(self)@.pos != old(self)@.pos),
    {
        let mut advanced = false;
        loop
            invariant
                self.wf(),
                self@.text == old(self)@.text,
                self@.skipped(Members::Class(class)) == old(self)@.skipped(Members::Class(class)),
                self@.pos >= old(self)@.pos,
                self@.loaded >= old(self)@.loaded,
                advanced ==> self@.settled(),
                advanced == (self@.pos != old(self)@.pos),
            ensures
                self.wf(),
                self@ == old(self)@.skipped(Members::Class(class)),
                self@.text == old(self)@.text,
                self@.pos >= old(self)@.pos,
                self@.loaded >= old(self)@.loaded,
                advanced ==> self@.settled(),
                advanced == (self@.pos != old(self)@.pos),
            decreases self@.text.len() - self@.pos,
        {
            if !self.accept_class(class) {
                break;
            }
            advanced = true;
        }
        advanced
    }

    /// Steps over white space and extracts up to the cursor.
    pub fn scan_whitespace(&mut self) -> (lexeme: Option<String>)
        requires
            old(self).wf(),
        ensures
            final(self).wf(),
            final(self)@ == old(self)@.skipped(class(CharClass::White)).extracted(),
            lexeme matches Some(s) && s@ == old(self)@.skipped(class(CharClass::White)).lexeme(),
    {
        self.skip_class(CharClass::White);
        Some(self.extract_string())
    }

    /// Extracts a number if one follows the cursor; else nothing moves but
    /// the look ahead.
    pub fn scan_number(&mut self) -> (lexeme: Option<String>)
        requires
            old(self).wf(),
        ensures
            final(self).wf(),
            match old(self)@.number() {
                Some(end) => lexeme matches Some(s) && s@ == end.lexeme() && final(self)@
                    == end.extracted(),
                None => lexeme is None && final(self)@ == old(self)@.number_miss(),
            },
            lexeme is None ==> final(self)@.text == old(self)@.text && final(self)@.pos == old(self)@.pos,
            lexeme is Some ==> final(self)@.text.len() < old(self)@.text.len(),
            lexeme is Some ==> final(self)@.settled(),
    {
        let backtrack = self.cursor;
        self.accept_class(CharClass::Sign);
        if !self.skip_class(CharClass::Digit) {
            self.cursor = backtrack;
            return None;
        }
        let backtrack = self.cursor;
        if self.accept_class(CharClass::Just('.')) && !self.skip_class(CharClass::Digit) {
            self.cursor = backtrack;
            return Some(self.extract_string());
        }
        let backtrack = self.cursor;
        if self.accept_class(CharClass::Exp) {
            self.accept_class(CharClass::Sign);
            if !self.skip_class(CharClass::Digit) {
                self.cursor = backtrack;
                return Some(self.extract_string());
            }
        }
        self.accept_class(CharClass::Just('i'));
        Some(self.extract_string())
    }

    /// Extracts an operator if one follows the cursor.
    pub fn scan_math_op(&mut self) -> (lexeme: Option<String>)
        requires
            old(self).wf(),
        ensures
            final(self).wf(),
            match old(self)@.math_op() {
                Some(end) => lexeme matches Some(s) && s@ == end.lexeme() && final(self)@
                    == end.extracted(),
                None => lexeme is None && final(self)@ == old(self)@.math_op_miss(),
            },
            lexeme is None ==> final(self)@.text == old(self)@.text && final(self)@.pos == old(self)@.pos,
            lexeme is Some ==> final(self)@.text.len() < old(self)@.text.len(),
            lexeme is Some ==> final(self)@.settled(),
    {
        if self.accept_class(CharClass::Rel) {
            self.accept_class(CharClass::Just('='));
            Some(self.extract_string())
        } else if self.accept_class(CharClass::Just('*')) {
            self.accept_class(CharClass::Just('*'));
            Some(self.extract_string())
        } else if self.accept_class(CharClass::Op) {
            Some(self.extract_string())
        } else {
            None
        }
    }

    /// Extracts an identifier if one follows the cursor.
    pub fn scan_identifier(&mut self) -> (lexeme: Option<String>)
        requires
            old(self).wf(),
        ensures
            final(self).wf(),
            match old(self)@.identifier() {
                Some(end) => lexeme matches Some(s) && s@ == end.lexeme() && final(self)@
                    == end.extracted(),
                None => lexeme is None && final(self)@ == old(self)@.identifier_miss(),
            },
            lexeme is None ==> final(self)@.text == old(self)@.text && final(self)@.pos == old(self)@.pos,
            lexeme is Some ==> final(self)@.text.len() < old(self)@.text.len(),
            lexeme is Some ==> final(self)@.settled(),
    {
        if !self.accept_class(CharClass::Alpha) {
            return None;
        }
        self.skip_class(CharClass::Alnum);
        Some(self.extract_string())
    }
}

} // verus!
