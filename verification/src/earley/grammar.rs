use vstd::prelude::*;
use crate::earley::types::{Rule, Symbol};

verus! {

/// Whether symbol `sym` has a derivation of the empty sequence that is at
/// most `fuel` rules deep: some rule with that head has a body of which
/// every symbol has one that is less deep.
pub open spec fn derives_empty(rules: Seq<Rule>, sym: int, fuel: nat) -> bool
    decreases fuel,
{
    fuel > 0 && exists|r: int|
        0 <= r < rules.len() && (#[trigger] rules[r]).head == sym && forall|k: int|
            0 <= k < rules[r].body@.len() ==> derives_empty(
                rules,
                #[trigger] rules[r].body@[k] as int,
                (fuel - 1) as nat,
            )
}

/// Whether symbol `sym` derives the empty sequence.
pub open spec fn nullable_symbol(rules: Seq<Rule>, sym: int) -> bool {
    exists|fuel: nat| derives_empty(rules, sym, fuel)
}

/// Every symbol of the body of rule `r` is marked.
pub open spec fn body_marked(rules: Seq<Rule>, marks: Seq<bool>, r: int) -> bool {
    forall|k: int| 0 <= k < rules[r].body@.len() ==> marks[#[trigger] rules[r].body@[k] as int]
}

/// The head of each rule whose body is marked throughout is marked.
pub open spec fn closed_under(rules: Seq<Rule>, marks: Seq<bool>, upto: int) -> bool {
    forall|r: int|
        0 <= r < upto && body_marked(rules, marks, r) ==> marks[(#[trigger] rules[r]).head as int]
}

/// Every rule speaks of symbols below `n` only.
pub open spec fn rules_within(rules: Seq<Rule>, n: int) -> bool {
    forall|r: int|
        0 <= r < rules.len() ==> (#[trigger] rules[r]).head < n && forall|k: int|
            0 <= k < rules[r].body@.len() ==> (#[trigger] rules[r].body@[k]) < n
}

/// How many of `s` are true.
pub open spec fn count_true(s: Seq<bool>) -> nat
    decreases s.len(),
{
    if s.len() == 0 {
        0
    } else {
        count_true(s.drop_last()) + (if s.last() { 1nat } else { 0nat })
    }
}

proof fn lemma_count_le(s: Seq<bool>)
    ensures
        count_true(s) <= s.len(),
    decreases s.len(),
{
    if s.len() > 0 {
        lemma_count_le(s.drop_last());
    }
}

proof fn lemma_count_update(s: Seq<bool>, i: int)
    requires
        0 <= i < s.len(),
        !s[i],
    ensures
        count_true(s.update(i, true)) == count_true(s) + 1,
    decreases s.len(),
{
    let u = s.update(i, true);
    if i == s.len() - 1 {
        assert(u.drop_last() =~= s.drop_last());
    } else {
        assert(u.drop_last() =~= s.drop_last().update(i, true));
        lemma_count_update(s.drop_last(), i);
    }
}

/// A derivation that is at most `fuel` deep is at most `fuel + 1` deep.
pub proof fn lemma_deeper(rules: Seq<Rule>, sym: int, fuel: nat)
    requires
        derives_empty(rules, sym, fuel),
    ensures
        derives_empty(rules, sym, fuel + 1),
    decreases fuel,
{
    let r = choose|r: int|
        0 <= r < rules.len() && (#[trigger] rules[r]).head == sym && forall|k: int|
            0 <= k < rules[r].body@.len() ==> derives_empty(
                rules,
                #[trigger] rules[r].body@[k] as int,
                (fuel - 1) as nat,
            );
    assert forall|k: int| 0 <= k < rules[r].body@.len() implies derives_empty(
        rules,
        #[trigger] rules[r].body@[k] as int,
        fuel,
    ) by {
        lemma_deeper(rules, rules[r].body@[k] as int, (fuel - 1) as nat);
    }
}

/// Marks that are closed under the rules hold every symbol that derives
/// the empty sequence.
pub proof fn lemma_closed_marks_all(rules: Seq<Rule>, marks: Seq<bool>, sym: int, fuel: nat)
    requires
        closed_under(rules, marks, rules.len() as int),
        derives_empty(rules, sym, fuel),
    ensures
        marks[sym],
    decreases fuel,
{
    let r = choose|r: int|
        0 <= r < rules.len() && (#[trigger] rules[r]).head == sym && forall|k: int|
            0 <= k < rules[r].body@.len() ==> derives_empty(
                rules,
                #[trigger] rules[r].body@[k] as int,
                (fuel - 1) as nat,
            );
    assert forall|k: int| 0 <= k < rules[r].body@.len() implies marks[#[trigger] rules[r].body@[k] as int] by {
        lemma_closed_marks_all(rules, marks, rules[r].body@[k] as int, (fuel - 1) as nat);
    }
    assert(body_marked(rules, marks, r));
}

fn body_is_marked(rules: &Vec<Rule>, marks: &Vec<bool>, r: usize) -> (b: bool)
    requires
        r < rules.len(),
        rules_within(rules@, marks.len() as int),
    ensures
        b == body_marked(rules@, marks@, r as int),
{
    let rule = &rules[r];
    let mut k: usize = 0;
    while k < rule.body.len()
        invariant
            k <= rule.body.len(),
            rule == rules@[r as int],
            r < rules.len(),
            rules_within(rules@, marks.len() as int),
            forall|j: int| 0 <= j < k ==> marks@[#[trigger] rules@[r as int].body@[j] as int],
        decreases rule.body.len() - k,
    {
        if !marks[rule.body[k]] {
            return false;
        }
        k += 1;
    }
    true
}

/// For each of `n` symbols, whether it derives the empty sequence.
pub fn nullable_marks(rules: &Vec<Rule>, n: usize) -> (marks: Vec<bool>)
    requires
        rules_within(rules@, n as int),
    ensures
        marks.len() == n,
        forall|s: int| 0 <= s < n ==> marks@[s] == nullable_symbol(rules@, s),
{
    let mut marks: Vec<bool> = Vec::new();
    while marks.len() < n
        invariant
            marks.len() <= n,
            forall|s: int| 0 <= s < marks.len() ==> !marks@[s],
            count_true(marks@) == 0,
        decreases n - marks.len(),
    {
        proof {
            assert(marks@.push(false).drop_last() =~= marks@);
        }
        marks.push(false);
    }
    let mut marked: usize = 0;
    let ghost mut depth: nat = 0;
    loop
        invariant
            marks.len() == n,
            rules_within(rules@, n as int),
            marked == count_true(marks@),
            forall|s: int| 0 <= s < n && marks@[s] ==> derives_empty(rules@, s, depth),
        ensures
            marks.len() == n,
            forall|s: int| 0 <= s < n && marks@[s] ==> derives_empty(rules@, s, depth),
            closed_under(rules@, marks@, rules@.len() as int),
        decreases n - marked,
    {
        proof {
            lemma_count_le(marks@);
        }
        let ghost before = marks@;
        let ghost marked_before = marked;
        let mut changed = false;
        let mut r: usize = 0;
        while r < rules.len()
            invariant
                r <= rules.len(),
                marks.len() == n,
                rules_within(rules@, n as int),
                marked == count_true(marks@),
                marked <= n,
                marked >= marked_before,
                changed ==> marked > marked_before,
                !changed ==> marks@ == before,
                !changed ==> closed_under(rules@, marks@, r as int),
                forall|s: int| 0 <= s < n && marks@[s] ==> derives_empty(rules@, s, depth),
            decreases rules.len() - r,
        {
            let head = rules[r].head;
            if !marks[head] && body_is_marked(rules, &marks, r) {
                proof {
                    lemma_count_update(marks@, head as int);
                    lemma_count_le(marks@.update(head as int, true));
                    assert forall|s: int| 0 <= s < n && marks@[s] implies derives_empty(
                        rules@,
                        s,
                        depth + 1,
                    ) by {
                        lemma_deeper(rules@, s, depth);
                    }
                    assert(derives_empty(rules@, head as int, depth + 1)) by {
                        assert(forall|k: int|
                            0 <= k < rules@[r as int].body@.len() ==> marks@[#[trigger] rules@[r as int].body@[k] as int]);
                    }
                    depth = depth + 1;
                }
                marks.set(head, true);
                marked = marked + 1;
                changed = true;
            }
            r += 1;
        }
        if !changed {
            break;
        }
    }
    proof {
        assert forall|s: int| 0 <= s < n implies marks@[s] == nullable_symbol(rules@, s) by {
            if nullable_symbol(rules@, s) {
                let fuel = choose|fuel: nat| derives_empty(rules@, s, fuel);
                lemma_closed_marks_all(rules@, marks@, s, fuel);
            }
        }
    }
    marks
}

/// Whether a symbol of `symbols` has the name `name`.
pub open spec fn named<P>(symbols: Seq<Symbol<P>>, name: Seq<char>) -> bool {
    exists|i: int| 0 <= i < symbols.len() && (#[trigger] symbols[i]).spec_name() == name
}

/// No two symbols of `symbols` have the same name.
pub open spec fn unique_names<P>(symbols: Seq<Symbol<P>>) -> bool {
    forall|i: int, j: int|
        0 <= i < j < symbols.len() ==> (#[trigger] symbols[i]).spec_name() != (
        #[trigger] symbols[j]).spec_name()
}

/// The index of the symbol named `name`.
pub fn find<P>(symbols: &Vec<Symbol<P>>, name: &str) -> (r: Option<usize>)
    ensures
        match r {
            Some(i) => i < symbols.len() && symbols@[i as int].spec_name() == name@,
            None => !named(symbols@, name@),
        },
{
    let mut i: usize = 0;
    while i < symbols.len()
        invariant
            i <= symbols.len(),
            forall|j: int| 0 <= j < i ==> (#[trigger] symbols@[j]).spec_name() != name@,
        decreases symbols.len() - i,
    {
        if symbols[i].is_named(name) {
            return Some(i);
        }
        i += 1;
    }
    None
}

/// The indices, in order, of the rules among the first `upto` whose head
/// is `head`.
pub open spec fn rules_headed(rules: Seq<Rule>, head: int, upto: int) -> Seq<usize>
    decreases upto,
{
    if upto <= 0 {
        Seq::empty()
    } else if rules[upto - 1].head == head {
        rules_headed(rules, head, upto - 1).push((upto - 1) as usize)
    } else {
        rules_headed(rules, head, upto - 1)
    }
}

/// Collects the symbols and rules of a grammar by name.
pub struct GrammarBuilder<P> {
    pub symbols: Vec<Symbol<P>>,
    pub rules: Vec<Rule>,
}

impl<P> GrammarBuilder<P> {
    /// Names are unique, and rules speak of registered symbols, with a
    /// nonterminal as head.
    pub open spec fn wf(&self) -> bool {
        &&& unique_names(self.symbols@)
        &&& rules_within(self.rules@, self.symbols@.len() as int)
        &&& forall|r: int|
            0 <= r < self.rules@.len() ==> self.symbols@[(
            #[trigger] self.rules@[r]).head as int] is Nonterminal
    }

    pub fn new() -> (b: GrammarBuilder<P>)
        ensures
            b.wf(),
            b.symbols@.len() == 0,
            b.rules@.len() == 0,
    {
        GrammarBuilder { symbols: Vec::new(), rules: Vec::new() }
    }

    /// Registers `symbol`, whose name must be new.
    pub fn symbol(self, symbol: Symbol<P>) -> (b: GrammarBuilder<P>)
        requires
            self.wf(),
            !named(self.symbols@, symbol.spec_name()),
        ensures
            b.wf(),
            b.symbols@ == self.symbols@.push(symbol),
            b.rules == self.rules,
    {
        let mut b = self;
        b.symbols.push(symbol);
        b
    }

    /// Adds the rule with the head named `head` and the body named by
    /// `body`; each name must be registered, the head as a nonterminal.
    pub fn rule(self, head: &str, body: Vec<&str>) -> (b: GrammarBuilder<P>)
        requires
            self.wf(),
            exists|i: int|
                0 <= i < self.symbols@.len() && (#[trigger] self.symbols@[i]).spec_name() == head@
                    && self.symbols@[i] is Nonterminal,
            forall|k: int| 0 <= k < body@.len() ==> named(self.symbols@, (#[trigger] body@[k])@),
        ensures
            b.wf(),
            b.symbols == self.symbols,
            b.rules@.len() == self.rules@.len() + 1,
            b.rules@.drop_last() == self.rules@,
            b.symbols@[b.rules@.last().head as int].spec_name() == head@,
            b.rules@.last().body@.len() == body@.len(),
            forall|k: int|
                0 <= k < body@.len() ==> b.symbols@[(#[trigger] b.rules@.last().body@[k]) as int].spec_name()
                    == body@[k]@,
    {
        let mut b = self;
        let h = find(&b.symbols, head).unwrap();
        let mut indices: Vec<usize> = Vec::new();
        let mut k: usize = 0;
        while k < body.len()
            invariant
                k <= body.len(),
                indices.len() == k,
                forall|j: int| 0 <= j < body@.len() ==> named(b.symbols@, (#[trigger] body@[j])@),
                forall|j: int|
                    0 <= j < k ==> (#[trigger] indices@[j]) < b.symbols@.len() && b.symbols@[indices@[j] as int].spec_name()
                        == body@[j]@,
            decreases body.len() - k,
        {
            assert(named(b.symbols@, body@[k as int]@));
            let s = find(&b.symbols, body[k]).unwrap();
            indices.push(s);
            k += 1;
        }
        let ghost before = b.rules@;
        b.rules.push(Rule::new(h, indices));
        assert(b.rules@.drop_last() =~= before);
        b
    }

    /// The grammar of what was collected, with the start symbol named
    /// `start`, which must be a registered nonterminal.
    pub fn into_grammar(self, start: &str) -> (g: Grammar<P>)
        requires
            self.wf(),
            exists|i: int|
                0 <= i < self.symbols@.len() && (#[trigger] self.symbols@[i]).spec_name() == start@
                    && self.symbols@[i] is Nonterminal,
        ensures
            g.wf(),
            g.symbols == self.symbols,
            g.rules == self.rules,
            g.symbols@[g.start as int].spec_name() == start@,
    {
        let s = find(&self.symbols, start).unwrap();
        let nullable = nullable_marks(&self.rules, self.symbols.len());
        Grammar { symbols: self.symbols, rules: self.rules, start: s, nullable }
    }
}

/// The symbols and rules for a start symbol, with the symbols that derive
/// the empty sequence marked.
pub struct Grammar<P> {
    pub symbols: Vec<Symbol<P>>,
    pub rules: Vec<Rule>,
    pub start: usize,
    pub nullable: Vec<bool>,
}

impl<P> Grammar<P> {
    pub open spec fn wf(&self) -> bool {
        &&& unique_names(self.symbols@)
        &&& rules_within(self.rules@, self.symbols@.len() as int)
        &&& forall|r: int|
            0 <= r < self.rules@.len() ==> self.symbols@[(
            #[trigger] self.rules@[r]).head as int] is Nonterminal
        &&& self.start < self.symbols@.len()
        &&& self.symbols@[self.start as int] is Nonterminal
        &&& self.nullable@.len() == self.symbols@.len()
        &&& forall|s: int|
            0 <= s < self.symbols@.len() ==> self.nullable@[s] == nullable_symbol(self.rules@, s)
    }

    /// The indices of the rules whose head is named `name`, in the order
    /// in which they were added.
    pub fn rules(&self, name: &str) -> (found: Vec<usize>)
        requires
            self.wf(),
        ensures
            match find_spec(self.symbols@, name@) {
                Some(h) => found@ == rules_headed(self.rules@, h, self.rules@.len() as int),
                None => found@.len() == 0,
            },
    {
        match find(&self.symbols, name) {
            Some(h) => {
                proof {
                    lemma_find_spec(self.symbols@, name@, h as int);
                }
                self.rules_of(h)
            },
            None => Vec::new(),
        }
    }

    /// The indices of the rules whose head is symbol `head`, in order.
    pub fn rules_of(&self, head: usize) -> (found: Vec<usize>)
        ensures
            found@ == rules_headed(self.rules@, head as int, self.rules@.len() as int),
            forall|i: int|
                0 <= i < found@.len() ==> (#[trigger] found@[i]) < self.rules@.len()
                    && self.rules@[found@[i] as int].head == head,
    {
        let mut found: Vec<usize> = Vec::new();
        let mut r: usize = 0;
        while r < self.rules.len()
            invariant
                r <= self.rules.len(),
                found@ == rules_headed(self.rules@, head as int, r as int),
                forall|i: int|
                    0 <= i < found@.len() ==> (#[trigger] found@[i]) < self.rules@.len()
                        && self.rules@[found@[i] as int].head == head,
            decreases self.rules.len() - r,
        {
            if self.rules[r].head == head {
                found.push(r);
            }
            r += 1;
        }
        found
    }

    /// Whether the symbol named `name` derives the empty sequence; no
    /// symbol of another name does.
    pub fn is_nullable(&self, name: &str) -> (r: bool)
        requires
            self.wf(),
        ensures
            r == match find_spec(self.symbols@, name@) {
                Some(s) => nullable_symbol(self.rules@, s),
                None => false,
            },
    {
        match find(&self.symbols, name) {
            Some(s) => {
                proof {
                    lemma_find_spec(self.symbols@, name@, s as int);
                }
                self.nullable[s]
            },
            None => false,
        }
    }
}

/// The index of the symbol named `name`, if there is one.
pub open spec fn find_spec<P>(symbols: Seq<Symbol<P>>, name: Seq<char>) -> Option<int> {
    if named(symbols, name) {
        Some(choose|i: int| 0 <= i < symbols.len() && (#[trigger] symbols[i]).spec_name() == name)
    } else {
        None
    }
}

/// Among unique names, the symbol of a name is found at its one index.
pub proof fn lemma_find_spec<P>(symbols: Seq<Symbol<P>>, name: Seq<char>, i: int)
    requires
        unique_names(symbols),
        0 <= i < symbols.len(),
        symbols[i].spec_name() == name,
    ensures
        find_spec(symbols, name) == Some(i),
{
    let j = choose|j: int| 0 <= j < symbols.len() && (#[trigger] symbols[j]).spec_name() == name;
    if j < i {
        assert(symbols[j].spec_name() != symbols[i].spec_name());
    } else if i < j {
        assert(symbols[i].spec_name() != symbols[j].spec_name());
    }
}

} // verus!
