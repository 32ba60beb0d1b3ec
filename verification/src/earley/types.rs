use vstd::prelude::*;
use vstd::std_specs::cmp::PartialEqSpecImpl;
use crate::text::{chars_of, same_chars, string_of};

verus! {

/// Decides whether a lexeme is an instance of a terminal.
pub trait Predicate {
    fn accepts(&self, lexeme: &str) -> bool;
}

/// A symbol of a grammar: a nonterminal, or a terminal with the predicate
/// that recognises its lexemes.
#[derive(Debug)]
pub enum Symbol<P> {
    Nonterminal(String),
    Terminal(String, P),
}

impl<P> Symbol<P> {
    pub fn nonterm(name: &str) -> (s: Symbol<P>)
        ensures
            s matches Symbol::Nonterminal(n) && n@ == name@,
    {
        Symbol::Nonterminal(string_of(&chars_of(name)))
    }

    pub fn terminal(name: &str, pred: P) -> (s: Symbol<P>)
        ensures
            s matches Symbol::Terminal(n, p) && n@ == name@ && p == pred,
    {
        Symbol::Terminal(string_of(&chars_of(name)), pred)
    }

    /// The symbol's name.
    pub open spec fn spec_name(&self) -> Seq<char> {
        match self {
            Symbol::Nonterminal(n) => n@,
            Symbol::Terminal(n, _) => n@,
        }
    }

    pub fn name(&self) -> (n: &String)
        ensures
            n@ == self.spec_name(),
    {
        match self {
            Symbol::Nonterminal(n) => n,
            Symbol::Terminal(n, _) => n,
        }
    }

    pub fn is_terminal(&self) -> (t: bool)
        ensures
            t == (self is Terminal),
    {
        match self {
            Symbol::Nonterminal(_) => false,
            Symbol::Terminal(_, _) => true,
        }
    }

    /// Whether the symbol's name is `name`.
    pub fn is_named(&self, name: &str) -> (r: bool)
        ensures
            r == (self.spec_name() == name@),
    {
        let mine = chars_of(self.name().as_str());
        let other = chars_of(name);
        same_chars(&mine, &other)
    }
}

impl<P> PartialEq for Symbol<P> {
    /// Two nonterminals are equal when their names are. A terminal is told
    /// from every other symbol value: its predicate has no form to compare.
    fn eq(&self, other: &Symbol<P>) -> (r: bool) {
        match (self, other) {
            (Symbol::Nonterminal(a), Symbol::Nonterminal(b)) => {
                let x = chars_of(a.as_str());
                let y = chars_of(b.as_str());
                same_chars(&x, &y)
            },
            _ => false,
        }
    }
}

impl<P> PartialEqSpecImpl for Symbol<P> {
    open spec fn obeys_eq_spec() -> bool {
        true
    }

    open spec fn eq_spec(&self, other: &Symbol<P>) -> bool {
        self is Nonterminal && other is Nonterminal && self.spec_name() == other.spec_name()
    }
}

/// A production: the head and the symbols of the body, each by its index
/// in the grammar's table of symbols.
#[derive(Debug, PartialEq, Eq)]
pub struct Rule {
    pub head: usize,
    pub body: Vec<usize>,
}

/// A rule as plain values.
pub struct RuleView {
    pub head: int,
    pub body: Seq<int>,
}

impl View for Rule {
    type V = RuleView;

    open spec fn view(&self) -> RuleView {
        RuleView { head: self.head as int, body: self.body@.map_values(|s: usize| s as int) }
    }
}

impl Rule {
    pub fn new(head: usize, body: Vec<usize>) -> (r: Rule)
        ensures
            r.head == head,
            r.body == body,
    {
        Rule { head, body }
    }
}

/// A dotted rule: the rule by its index in the grammar, how many symbols
/// of its body are recognised, the column where that began, and the
/// column that holds the item.
#[derive(Debug, Clone, Copy)]
pub struct Item {
    pub rule: usize,
    pub dot: usize,
    pub origin: usize,
    pub end: usize,
}

impl Item {
    pub fn new(rule: usize, dot: usize, origin: usize, end: usize) -> (i: Item)
        ensures
            i == (Item { rule, dot, origin, end }),
    {
        Item { rule, dot, origin, end }
    }

    /// What tells two items apart: the rule, the dot and the origin.
    pub open spec fn key(self) -> (int, int, int) {
        (self.rule as int, self.dot as int, self.origin as int)
    }

    /// Whether the two items have the same rule, dot and origin.
    pub fn same(&self, other: &Item) -> (r: bool)
        ensures
            r == (self.key() == other.key()),
    {
        self.rule == other.rule && self.dot == other.dot && self.origin == other.origin
    }
}

impl PartialEq for Item {
    fn eq(&self, other: &Item) -> (r: bool) {
        self.rule == other.rule && self.dot == other.dot && self.origin == other.origin
    }
}

impl PartialEqSpecImpl for Item {
    open spec fn obeys_eq_spec() -> bool {
        true
    }

    open spec fn eq_spec(&self, other: &Item) -> bool {
        self.rule == other.rule && self.dot == other.dot && self.origin == other.origin
    }
}

/// Whether an item with the key of `item` is in `items`.
pub open spec fn holds(items: Seq<Item>, item: Item) -> bool {
    exists|i: int| 0 <= i < items.len() && #[trigger] items[i].key() == item.key()
}

/// No two items of `items` have the same key.
pub open spec fn distinct(items: Seq<Item>) -> bool {
    forall|i: int, j: int|
        0 <= i < j < items.len() ==> #[trigger] items[i].key() != #[trigger] items[j].key()
}

/// The items after `item` is pushed: unchanged where its key is there
/// already, else with `item` at the end.
pub open spec fn pushed(items: Seq<Item>, item: Item) -> Seq<Item> {
    if holds(items, item) {
        items
    } else {
        items.push(item)
    }
}

/// The items after each of `more` is pushed, in order.
pub open spec fn extended(items: Seq<Item>, more: Seq<Item>) -> Seq<Item>
    decreases more.len(),
{
    if more.len() == 0 {
        items
    } else {
        pushed(extended(items, more.drop_last()), more.last())
    }
}

/// A column of the chart: items in the order in which they came, none twice.
#[derive(Debug, PartialEq)]
pub struct StateSet {
    items: Vec<Item>,
}

impl View for StateSet {
    type V = Seq<Item>;

    closed spec fn view(&self) -> Seq<Item> {
        self.items@
    }
}

impl StateSet {
    /// No item is held twice.
    pub open spec fn wf(&self) -> bool {
        distinct(self@)
    }

    pub fn new() -> (s: StateSet)
        ensures
            s.wf(),
            s@ == Seq::<Item>::empty(),
    {
        StateSet { items: Vec::new() }
    }

    pub fn len(&self) -> (n: usize)
        ensures
            n == self@.len(),
    {
        self.items.len()
    }

    pub fn is_empty(&self) -> (e: bool)
        ensures
            e == (self@.len() == 0),
    {
        self.items.len() == 0
    }

    /// The item at index `i`.
    pub fn get(&self, i: usize) -> (item: Item)
        requires
            i < self@.len(),
        ensures
            item == self@[i as int],
    {
        self.items[i]
    }

    /// Whether an item with the key of `item` is held.
    pub fn contains(&self, item: &Item) -> (r: bool)
        ensures
            r == holds(self@, *item),
    {
        let mut i: usize = 0;
        while i < self.items.len()
            invariant
                i <= self.items.len(),
                forall|k: int| 0 <= k < i ==> (#[trigger] self.items@[k].key()) != item.key(),
            decreases self.items.len() - i,
        {
            if self.items[i].same(item) {
                return true;
            }
            i += 1;
        }
        false
    }

    /// Adds `item` unless an item with its key is held, and says whether
    /// it was added.
    pub fn push(&mut self, item: Item) -> (added: bool)
        requires
            old(self).wf(),
        ensures
            final(self).wf(),
            final(self)@ == pushed(old(self)@, item),
            added == !holds(old(self)@, item),
            final(self)@.len() == old(self)@.len() + (if added { 1int } else { 0int }),
            holds(final(self)@, item),
    {
        if self.contains(&item) {
            return false;
        }
        self.items.push(item);
        assert(self.items@[self.items@.len() - 1].key() == item.key());
        true
    }

    /// Pushes each item of `more`, in order.
    pub fn extend(&mut self, more: Vec<Item>)
        requires
            old(self).wf(),
        ensures
            final(self).wf(),
            final(self)@ == extended(old(self)@, more@),
    {
        let mut i: usize = 0;
        while i < more.len()
            invariant
                i <= more.len(),
                self.wf(),
                self@ == extended(old(self)@, more@.subrange(0, i as int)),
            decreases more.len() - i,
        {
            proof {
                assert(more@.subrange(0, i + 1).drop_last() =~= more@.subrange(0, i as int));
            }
            self.push(more[i]);
            i += 1;
        }
        assert(more@.subrange(0, more.len() as int) =~= more@);
    }
}

/// Pushing an item that is held changes nothing, however often it is
/// pushed: a second push of the same item leaves what the first left.
pub proof fn lemma_push_idempotent(items: Seq<Item>, item: Item)
    ensures
        pushed(pushed(items, item), item) == pushed(items, item),
        pushed(items, item).len() == items.len() + (if holds(items, item) { 0int } else { 1int }),
{
    if !holds(items, item) {
        let p = items.push(item);
        assert(p[p.len() - 1].key() == item.key());
    }
}

} // verus!
