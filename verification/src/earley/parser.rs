use vstd::prelude::*;
use vstd::arithmetic::mul::{lemma_mul_inequality, lemma_mul_is_distributive_add_other_way};
use vstd::set_lib::{lemma_int_range, lemma_len_subset, set_int_range};
use crate::earley::grammar::Grammar;
use crate::earley::lexer::{string_views, Lexer};
use crate::earley::types::{distinct, holds, pushed, Item, Predicate, Rule, StateSet, Symbol};

verus! {

/// Why an input is not a sentence of the grammar.
#[derive(Debug, PartialEq, Eq, Structural, Clone, Copy)]
pub enum ParseError {
    /// No sentence of the grammar starts the way the input does and
    /// ends where recognition stopped.
    BadInput,
    /// A sentence of the grammar is a prefix of the input, and the
    /// lexeme that follows could not go on.
    PartialParse,
}

/// The chart of a successful parse: one column for each position
/// between lexemes.
#[derive(Debug, PartialEq)]
pub struct ParseState {
    pub states: Vec<StateSet>,
}

/// Whether `item` is a dotted rule of the grammar that can stand in column `col`.
pub open spec fn valid_item<P>(g: &Grammar<P>, item: Item, col: int) -> bool {
    &&& item.rule < g.rules@.len()
    &&& item.dot <= g.rules@[item.rule as int].body@.len()
    &&& item.origin <= col
    &&& item.end == col
}

/// Whether all of `items` can stand in column `col`.
pub open spec fn valid_column<P>(g: &Grammar<P>, items: Seq<Item>, col: int) -> bool {
    forall|i: int| 0 <= i < items.len() ==> valid_item(g, #[trigger] items[i], col)
}

/// Whether each column of `chart` holds items that can stand in it, none twice.
pub open spec fn valid_chart<P>(g: &Grammar<P>, chart: Seq<StateSet>) -> bool {
    forall|c: int|
        0 <= c < chart.len() ==> (#[trigger] chart[c]).wf() && valid_column(g, chart[c]@, c)
}

/// Whether the dot of `item` stands before symbol `sym`.
pub open spec fn wants<P>(g: &Grammar<P>, item: Item, sym: int) -> bool {
    &&& item.rule < g.rules@.len()
    &&& item.dot < g.rules@[item.rule as int].body@.len()
    &&& g.rules@[item.rule as int].body@[item.dot as int] == sym
}

/// Whether the dot of `item` stands at the end of its rule.
pub open spec fn complete<P>(g: &Grammar<P>, item: Item) -> bool {
    item.rule < g.rules@.len() && item.dot == g.rules@[item.rule as int].body@.len()
}

/// `item` with the dot one symbol further, in column `col`.
pub open spec fn advanced(item: Item, col: int) -> Item {
    Item {
        rule: item.rule,
        dot: (item.dot + 1) as usize,
        origin: item.origin,
        end: col as usize,
    }
}

/// Whether `item` recognises the start symbol from the first column on.
pub open spec fn accepts<P>(g: &Grammar<P>, item: Item) -> bool {
    complete(g, item) && item.origin == 0 && g.rules@[item.rule as int].head == g.start
}

/// Whether a column holds an item that recognises the start symbol from
/// the first column on.
pub open spec fn accepting<P>(g: &Grammar<P>, items: Seq<Item>) -> bool {
    exists|i: int| 0 <= i < items.len() && accepts(g, #[trigger] items[i])
}

/// The length of the longest body among `rules`.
pub open spec fn longest(rules: Seq<Rule>) -> nat
    decreases rules.len(),
{
    if rules.len() == 0 {
        0
    } else {
        let rest = longest(rules.drop_last());
        if rules.last().body@.len() > rest {
            rules.last().body@.len()
        } else {
            rest
        }
    }
}

proof fn lemma_longest(rules: Seq<Rule>, r: int)
    requires
        0 <= r < rules.len(),
    ensures
        rules[r].body@.len() <= longest(rules),
    decreases rules.len(),
{
    if r < rules.len() - 1 {
        lemma_longest(rules.drop_last(), r);
    }
}

/// How many items with different keys a column `col` of a grammar with
/// `count` rules, none longer than `width`, can hold.
pub open spec fn capacity(count: int, width: int, col: int) -> int {
    count * (width + 1) * (col + 1)
}

/// A number for the key of an item, different for different keys.
spec fn code(item: Item, width: int, col: int) -> int {
    (item.rule * (width + 1) + item.dot) * (col + 1) + item.origin
}

proof fn lemma_radix(a1: int, b1: int, a2: int, b2: int, n: int)
    requires
        0 <= b1 < n,
        0 <= b2 < n,
        a1 * n + b1 == a2 * n + b2,
    ensures
        a1 == a2,
        b1 == b2,
{
    if a1 < a2 {
        lemma_mul_inequality(a1 + 1, a2, n);
        lemma_mul_is_distributive_add_other_way(n, a1, 1);
    } else if a2 < a1 {
        lemma_mul_inequality(a2 + 1, a1, n);
        lemma_mul_is_distributive_add_other_way(n, a2, 1);
    }
}

proof fn lemma_radix_bound(a: int, b: int, n: int, m: int)
    requires
        0 <= b < n,
        0 <= a < m,
    ensures
        0 <= a * n + b < m * n,
{
    lemma_mul_inequality(a + 1, m, n);
    lemma_mul_is_distributive_add_other_way(n, a, 1);
    lemma_mul_inequality(0, a, n);
}

proof fn lemma_distinct_bounded(s: Seq<int>, b: int)
    requires
        0 <= b,
        s.no_duplicates(),
        forall|i: int| 0 <= i < s.len() ==> 0 <= #[trigger] s[i] < b,
    ensures
        s.len() <= b,
{
    if s.len() > 0 {
        assert(0 <= s[0] < b);
        s.unique_seq_to_set();
        lemma_int_range(0, b);
        assert forall|x: int| #[trigger] s.to_set().contains(x) implies set_int_range(0, b).contains(x) by {
            assert(s.contains(x));
            let i = choose|i: int| 0 <= i < s.len() && s[i] == x;
            assert(0 <= s[i] < b);
        }
        assert(s.to_set().subset_of(set_int_range(0, b)));
        lemma_len_subset(s.to_set(), set_int_range(0, b));
    }
}

/// A column holds at most as many items as there are keys for it.
proof fn lemma_column_bounded<P>(g: &Grammar<P>, items: Seq<Item>, col: int)
    requires
        distinct(items),
        valid_column(g, items, col),
        0 <= col,
    ensures
        items.len() <= capacity(g.rules@.len() as int, longest(g.rules@) as int, col),
{
    let width = longest(g.rules@) as int;
    let count = g.rules@.len() as int;
    let codes = Seq::new(items.len(), |i: int| code(items[i], width, col));
    assert forall|i: int| 0 <= i < codes.len() implies 0 <= #[trigger] codes[i] < capacity(
        count,
        width,
        col,
    ) by {
        let it = items[i];
        assert(valid_item(g, it, col));
        lemma_longest(g.rules@, it.rule as int);
        lemma_radix_bound(it.rule as int, it.dot as int, width + 1, count);
        lemma_radix_bound(
            it.rule * (width + 1) + it.dot,
            it.origin as int,
            col + 1,
            count * (width + 1),
        );
    }
    assert forall|i: int, j: int| 0 <= i < codes.len() && 0 <= j < codes.len() && i != j implies codes[i]
        != codes[j] by {
        let a = items[i];
        let b = items[j];
        assert(valid_item(g, a, col) && valid_item(g, b, col));
        lemma_longest(g.rules@, a.rule as int);
        lemma_longest(g.rules@, b.rule as int);
        if codes[i] == codes[j] {
            lemma_radix(
                a.rule * (width + 1) + a.dot,
                a.origin as int,
                b.rule * (width + 1) + b.dot,
                b.origin as int,
                col + 1,
            );
            lemma_radix(a.rule as int, a.dot as int, b.rule as int, b.dot as int, width + 1);
            assert(a.key() == b.key());
            if i < j {
                assert(items[i].key() != items[j].key());
            } else {
                assert(items[j].key() != items[i].key());
            }
        }
    }
    assert(0 <= count * (width + 1) * (col + 1)) by (nonlinear_arith)
        requires
            0 <= count,
            0 <= width,
            0 <= col,
    ;
    lemma_distinct_bounded(codes, capacity(count, width, col));
}

/// The item that predicts rule `rule` in column `col`.
pub open spec fn start_item(rule: int, col: int) -> Item {
    Item { rule: rule as usize, dot: 0, origin: col as usize, end: col as usize }
}

/// Whether the dot of `item` stands before a nonterminal.
pub open spec fn awaits_nonterminal<P>(g: &Grammar<P>, item: Item) -> bool {
    &&& item.rule < g.rules@.len()
    &&& item.dot < g.rules@[item.rule as int].body@.len()
    &&& g.symbols@[g.rules@[item.rule as int].body@[item.dot as int] as int] is Nonterminal
}

/// The symbol after the dot of `item`.
pub open spec fn next_symbol<P>(g: &Grammar<P>, item: Item) -> int {
    g.rules@[item.rule as int].body@[item.dot as int] as int
}

/// Prediction: where `item` awaits a nonterminal, `items` holds the
/// start of each rule of that nonterminal.
pub open spec fn predicted<P>(g: &Grammar<P>, items: Seq<Item>, col: int, item: Item) -> bool {
    awaits_nonterminal(g, item) ==> forall|r: int|
        0 <= r < g.rules@.len() && (#[trigger] g.rules@[r]).head == next_symbol(g, item) ==> holds(
            items,
            start_item(r, col),
        )
}

/// Where `item` awaits a nonterminal that derives the empty sequence,
/// `items` holds `item` with the dot behind that nonterminal.
pub open spec fn stepped_over<P>(g: &Grammar<P>, items: Seq<Item>, col: int, item: Item) -> bool {
    awaits_nonterminal(g, item) && g.nullable@[next_symbol(g, item)] ==> holds(
        items,
        advanced(item, col),
    )
}

/// Completion: for each item of `source` that awaits symbol `head`,
/// `items` holds it with the dot behind `head`.
pub open spec fn completed_from<P>(
    g: &Grammar<P>,
    source: Seq<Item>,
    items: Seq<Item>,
    col: int,
    head: int,
) -> bool {
    forall|j: int|
        0 <= j < source.len() && wants(g, #[trigger] source[j], head) ==> holds(
            items,
            advanced(source[j], col),
        )
}

/// What column `col` owes to its item `item`: the predictions, the step
/// over a nonterminal that derives the empty sequence, and, where `item`
/// is complete and began in an earlier column, the completions from
/// that column.
pub open spec fn settled<P>(
    g: &Grammar<P>,
    chart: Seq<StateSet>,
    items: Seq<Item>,
    col: int,
    item: Item,
) -> bool {
    &&& predicted(g, items, col, item)
    &&& stepped_over(g, items, col, item)
    &&& complete(g, item) && item.origin < col ==> completed_from(
        g,
        chart[item.origin as int]@,
        items,
        col,
        g.rules@[item.rule as int].head as int,
    )
}

/// Whether `longer` starts with the items of `shorter`.
pub open spec fn grows(shorter: Seq<Item>, longer: Seq<Item>) -> bool {
    shorter.len() <= longer.len() && forall|i: int|
        0 <= i < shorter.len() ==> #[trigger] longer[i] == shorter[i]
}

proof fn lemma_holds_grows(a: Seq<Item>, b: Seq<Item>, item: Item)
    requires
        grows(a, b),
        holds(a, item),
    ensures
        holds(b, item),
{
    let i = choose|i: int| 0 <= i < a.len() && #[trigger] a[i].key() == item.key();
    assert(b[i] == a[i]);
    assert(b[i].key() == item.key());
}

proof fn lemma_completed_grows<P>(
    g: &Grammar<P>,
    source: Seq<Item>,
    a: Seq<Item>,
    b: Seq<Item>,
    col: int,
    head: int,
)
    requires
        grows(a, b),
        completed_from(g, source, a, col, head),
    ensures
        completed_from(g, source, b, col, head),
{
    assert forall|j: int| 0 <= j < source.len() && wants(g, #[trigger] source[j], head) implies holds(
        b,
        advanced(source[j], col),
    ) by {
        lemma_holds_grows(a, b, advanced(source[j], col));
    }
}

proof fn lemma_settled_grows<P>(
    g: &Grammar<P>,
    chart: Seq<StateSet>,
    a: Seq<Item>,
    b: Seq<Item>,
    col: int,
    item: Item,
)
    requires
        grows(a, b),
        settled(g, chart, a, col, item),
    ensures
        settled(g, chart, b, col, item),
{
    if awaits_nonterminal(g, item) {
        assert forall|r: int|
            0 <= r < g.rules@.len() && (#[trigger] g.rules@[r]).head == next_symbol(
                g,
                item,
            ) implies holds(b, start_item(r, col)) by {
            lemma_holds_grows(a, b, start_item(r, col));
        }
        if g.nullable@[next_symbol(g, item)] {
            lemma_holds_grows(a, b, advanced(item, col));
        }
    }
    if complete(g, item) && item.origin < col {
        lemma_completed_grows(
            g,
            chart[item.origin as int]@,
            a,
            b,
            col,
            g.rules@[item.rule as int].head as int,
        );
    }
}

/// The items after the start of each of the first `upto` rules of
/// symbol `sym` is pushed, in the order of the rules.
pub open spec fn predictions<P>(
    g: &Grammar<P>,
    items: Seq<Item>,
    sym: int,
    col: int,
    upto: int,
) -> Seq<Item>
    decreases upto,
{
    if upto <= 0 {
        items
    } else {
        let before = predictions(g, items, sym, col, upto - 1);
        if g.rules@[upto - 1].head == sym {
            pushed(before, start_item(upto - 1, col))
        } else {
            before
        }
    }
}

/// The items after each of the first `upto` items of `source` that
/// awaits `head` is pushed with the dot behind `head`, in order.
pub open spec fn advances<P>(
    g: &Grammar<P>,
    source: Seq<Item>,
    head: int,
    items: Seq<Item>,
    col: int,
    upto: int,
) -> Seq<Item>
    decreases upto,
{
    if upto <= 0 {
        items
    } else {
        let before = advances(g, source, head, items, col, upto - 1);
        if wants(g, source[upto - 1], head) {
            pushed(before, advanced(source[upto - 1], col))
        } else {
            before
        }
    }
}

/// The items of column `col` after its item `k` is dealt with: before a
/// nonterminal, the predictions and, where the nonterminal derives the
/// empty sequence, the step over it; at the end of its rule, the
/// completions from the column where it began.
pub open spec fn settle<P>(
    g: &Grammar<P>,
    chart: Seq<Seq<Item>>,
    items: Seq<Item>,
    col: int,
    k: int,
) -> Seq<Item> {
    let item = items[k];
    if item.dot < g.rules@[item.rule as int].body@.len() {
        let sym = next_symbol(g, item);
        if g.symbols@[sym] is Nonterminal {
            let p = predictions(g, items, sym, col, g.rules@.len() as int);
            if g.nullable@[sym] {
                pushed(p, advanced(item, col))
            } else {
                p
            }
        } else {
            items
        }
    } else {
        let head = g.rules@[item.rule as int].head as int;
        if item.origin < col {
            advances(
                g,
                chart[item.origin as int],
                head,
                items,
                col,
                chart[item.origin as int].len() as int,
            )
        } else {
            advances(g, items, head, items, col, items.len() as int)
        }
    }
}

/// The items of column `col` once each item from index `k` on is dealt
/// with, those that this adds too; `fuel` bounds the steps.
pub open spec fn saturation<P>(
    g: &Grammar<P>,
    chart: Seq<Seq<Item>>,
    items: Seq<Item>,
    col: int,
    k: int,
    fuel: int,
) -> Seq<Item>
    decreases fuel,
{
    if fuel <= 0 || k < 0 || k >= items.len() {
        items
    } else {
        saturation(g, chart, settle(g, chart, items, col, k), col, k + 1, fuel - 1)
    }
}

/// The room of column `col` of the grammar's charts.
pub open spec fn room<P>(g: &Grammar<P>, col: int) -> int {
    capacity(g.rules@.len() as int, longest(g.rules@) as int, col)
}

/// The items that scanning the first `upto` items of `prev` over the
/// lexeme of `row` gives to column `col`, in order.
pub open spec fn scan_all<P>(
    g: &Grammar<P>,
    prev: Seq<Item>,
    row: Seq<bool>,
    col: int,
    upto: int,
) -> Seq<Item>
    decreases upto,
{
    if upto <= 0 {
        Seq::empty()
    } else {
        let before = scan_all(g, prev, row, col, upto - 1);
        if scans(g, row, prev[upto - 1]) {
            pushed(before, advanced(prev[upto - 1], col))
        } else {
            before
        }
    }
}

/// The first column of the grammar's charts.
pub open spec fn first_column<P>(g: &Grammar<P>) -> Seq<Item> {
    saturation(
        g,
        Seq::empty(),
        predictions(g, Seq::empty(), g.start as int, 0, g.rules@.len() as int),
        0,
        0,
        room(g, 0),
    )
}

/// The column that follows the columns of `chart` over the lexeme of `row`.
pub open spec fn next_column<P>(g: &Grammar<P>, chart: Seq<Seq<Item>>, row: Seq<bool>) -> Seq<Item> {
    saturation(
        g,
        chart,
        scan_all(g, chart.last(), row, chart.len() as int, chart.last().len() as int),
        chart.len() as int,
        0,
        room(g, chart.len() as int),
    )
}

/// `chart` with a column for each further lexeme of `table`, up to the
/// last lexeme or the first empty column.
pub open spec fn grown<P>(g: &Grammar<P>, table: Seq<Seq<bool>>, chart: Seq<Seq<Item>>) -> Seq<
    Seq<Item>,
>
    decreases table.len() + 1 - chart.len(),
{
    if 1 <= chart.len() <= table.len() && chart.last().len() > 0 {
        grown(g, table, chart.push(next_column(g, chart, table[chart.len() - 1])))
    } else {
        chart
    }
}

/// The chart of the grammar for the lexemes that `table` describes.
pub open spec fn chart_of<P>(g: &Grammar<P>, table: Seq<Seq<bool>>) -> Seq<Seq<Item>> {
    grown(g, table, seq![first_column(g)])
}

/// The items of each column of `chart`.
pub open spec fn columns(chart: Seq<StateSet>) -> Seq<Seq<Item>> {
    chart.map_values(|s: StateSet| s@)
}

/// The rows of `table`.
pub open spec fn rows(table: Seq<Vec<bool>>) -> Seq<Seq<bool>> {
    table.map_values(|r: Vec<bool>| r@)
}

/// Pushes the start of each rule of symbol `sym` into column `col`.
fn predict<P>(g: &Grammar<P>, set: &mut StateSet, sym: usize, col: usize)
    requires
        g.wf(),
        old(set).wf(),
        valid_column(g, old(set)@, col as int),
    ensures
        final(set).wf(),
        valid_column(g, final(set)@, col as int),
        grows(old(set)@, final(set)@),
        forall|r: int|
            0 <= r < g.rules@.len() && (#[trigger] g.rules@[r]).head == sym ==> holds(
                final(set)@,
                start_item(r, col as int),
            ),
        final(set)@ == predictions(g, old(set)@, sym as int, col as int, g.rules@.len() as int),
{
    let mut r: usize = 0;
    while r < g.rules.len()
        invariant
            r <= g.rules.len(),
            set.wf(),
            valid_column(g, set@, col as int),
            grows(old(set)@, set@),
            set@ == predictions(g, old(set)@, sym as int, col as int, r as int),
            forall|q: int|
                0 <= q < r && (#[trigger] g.rules@[q]).head == sym ==> holds(
                    set@,
                    start_item(q, col as int),
                ),
        decreases g.rules.len() - r,
    {
        if g.rules[r].head == sym {
            let ghost before = set@;
            set.push(Item::new(r, 0, col, col));
            proof {
                assert(grows(before, set@));
                assert forall|q: int|
                    0 <= q < r && (#[trigger] g.rules@[q]).head == sym implies holds(
                    set@,
                    start_item(q, col as int),
                ) by {
                    lemma_holds_grows(before, set@, start_item(q, col as int));
                }
            }
        }
        r += 1;
    }
}

/// Pushes into column `col`, for each of the first `upto` items of
/// `source` that awaits `head`, that item with the dot behind `head`.
fn advance_from<P>(g: &Grammar<P>, source: &StateSet, head: usize, set: &mut StateSet, col: usize)
    requires
        g.wf(),
        old(set).wf(),
        valid_column(g, old(set)@, col as int),
        exists|o: int| 0 <= o <= col && valid_column(g, source@, o),
    ensures
        final(set).wf(),
        valid_column(g, final(set)@, col as int),
        grows(old(set)@, final(set)@),
        completed_from(g, source@, final(set)@, col as int, head as int),
        final(set)@ == advances(g, source@, head as int, old(set)@, col as int, source@.len() as int),
{
    let ghost o = choose|o: int| 0 <= o <= col && valid_column(g, source@, o);
    let mut j: usize = 0;
    while j < source.len()
        invariant
            j <= source@.len(),
            g.wf(),
            set.wf(),
            0 <= o <= col,
            valid_column(g, source@, o),
            valid_column(g, set@, col as int),
            grows(old(set)@, set@),
            completed_from(g, source@.subrange(0, j as int), set@, col as int, head as int),
            set@ == advances(g, source@, head as int, old(set)@, col as int, j as int),
        decreases source@.len() - j,
    {
        let it = source.get(j);
        let ghost before = set@;
        assert(valid_item(g, it, o));
        if it.dot < g.rules[it.rule].body.len() && g.rules[it.rule].body[it.dot] == head {
            set.push(Item::new(it.rule, it.dot + 1, it.origin, col));
        }
        proof {
            assert(grows(before, set@));
            lemma_completed_grows(
                g,
                source@.subrange(0, j as int),
                before,
                set@,
                col as int,
                head as int,
            );
            assert forall|q: int|
                0 <= q < j + 1 && wants(
                    g,
                    #[trigger] source@.subrange(0, j + 1)[q],
                    head as int,
                ) implies holds(set@, advanced(source@.subrange(0, j + 1)[q], col as int)) by {
                if q < j {
                    assert(source@.subrange(0, j as int)[q] == source@.subrange(0, j + 1)[q]);
                }
            }
        }
        j += 1;
    }
    assert(source@.subrange(0, source@.len() as int) =~= source@);
}

/// As `advance_from`, for the items that column `col` itself held at the call.
fn advance_within<P>(g: &Grammar<P>, head: usize, set: &mut StateSet, col: usize)
    requires
        g.wf(),
        old(set).wf(),
        valid_column(g, old(set)@, col as int),
    ensures
        final(set).wf(),
        valid_column(g, final(set)@, col as int),
        grows(old(set)@, final(set)@),
        final(set)@ == advances(
            g,
            old(set)@,
            head as int,
            old(set)@,
            col as int,
            old(set)@.len() as int,
        ),
{
    let n = set.len();
    let mut j: usize = 0;
    while j < n
        invariant
            j <= n,
            n <= set@.len(),
            g.wf(),
            set.wf(),
            valid_column(g, set@, col as int),
            grows(old(set)@, set@),
            n == old(set)@.len(),
            set@ == advances(g, old(set)@, head as int, old(set)@, col as int, j as int),
        decreases n - j,
    {
        let it = set.get(j);
        assert(it == old(set)@[j as int]);
        assert(valid_item(g, it, col as int));
        if it.dot < g.rules[it.rule].body.len() && g.rules[it.rule].body[it.dot] == head {
            set.push(Item::new(it.rule, it.dot + 1, it.origin, col));
        }
        j += 1;
    }
}

/// Whether every item of column `col` has what the column owes to it.
pub open spec fn saturated<P>(g: &Grammar<P>, chart: Seq<StateSet>, items: Seq<Item>, col: int, upto: int) -> bool {
    forall|i: int| 0 <= i < upto ==> settled(g, chart, items, col, #[trigger] items[i])
}

/// Adds to column `col` what follows from its items by prediction and
/// completion, until nothing new follows.
pub fn saturate<P>(g: &Grammar<P>, chart: &Vec<StateSet>, set: &mut StateSet, col: usize)
    requires
        g.wf(),
        chart@.len() == col,
        valid_chart(g, chart@),
        old(set).wf(),
        valid_column(g, old(set)@, col as int),
    ensures
        final(set).wf(),
        valid_column(g, final(set)@, col as int),
        grows(old(set)@, final(set)@),
        saturated(g, chart@, final(set)@, col as int, final(set)@.len() as int),
        old(set)@.len() == 0 ==> final(set)@.len() == 0,
        final(set)@ == saturation(g, columns(chart@), old(set)@, col as int, 0, room(g, col as int)),
{
    let ghost room = capacity(g.rules@.len() as int, longest(g.rules@) as int, col as int);
    let mut k: usize = 0;
    while k < set.len()
        invariant
            k <= set@.len(),
            g.wf(),
            chart@.len() == col,
            valid_chart(g, chart@),
            set.wf(),
            valid_column(g, set@, col as int),
            grows(old(set)@, set@),
            saturated(g, chart@, set@, col as int, k as int),
            old(set)@.len() == 0 ==> set@.len() == 0,
            room == capacity(g.rules@.len() as int, longest(g.rules@) as int, col as int),
            saturation(g, columns(chart@), set@, col as int, k as int, room - k) == saturation(
                g,
                columns(chart@),
                old(set)@,
                col as int,
                0,
                room,
            ),
        decreases room - k,
    {
        proof {
            lemma_column_bounded(g, set@, col as int);
        }
        let item = set.get(k);
        let ghost start = set@;
        assert(valid_item(g, item, col as int));
        if item.dot < g.rules[item.rule].body.len() {
            let sym = g.rules[item.rule].body[item.dot];
            if !g.symbols[sym].is_terminal() {
                predict(g, set, sym, col);
                if g.nullable[sym] {
                    let ghost before = set@;
                    set.push(Item::new(item.rule, item.dot + 1, item.origin, col));
                    proof {
                        assert(grows(before, set@));
                        assert forall|r: int|
                            0 <= r < g.rules@.len() && (#[trigger] g.rules@[r]).head == sym implies holds(
                            set@,
                            start_item(r, col as int),
                        ) by {
                            lemma_holds_grows(before, set@, start_item(r, col as int));
                        }
                    }
                }
            }
        } else {
            let head = g.rules[item.rule].head;
            if item.origin < col {
                assert(chart@[item.origin as int].wf() && valid_column(
                    g,
                    chart@[item.origin as int]@,
                    item.origin as int,
                ));
                advance_from(g, &chart[item.origin], head, set, col);
            } else {
                advance_within(g, head, set, col);
            }
        }
        proof {
            assert(set@ == settle(g, columns(chart@), start, col as int, k as int));
            assert(grows(start, set@));
            assert(set@[k as int] == item);
            assert(settled(g, chart@, set@, col as int, item));
            assert forall|i: int| 0 <= i < k + 1 implies settled(
                g,
                chart@,
                set@,
                col as int,
                #[trigger] set@[i],
            ) by {
                if i < k {
                    assert(set@[i] == start[i]);
                    lemma_settled_grows(g, chart@, start, set@, col as int, start[i]);
                }
            }
        }
        k += 1;
    }
}

/// Whether the dot of `item` stands before a terminal that `row` accepts.
pub open spec fn scans<P>(g: &Grammar<P>, row: Seq<bool>, item: Item) -> bool {
    &&& item.rule < g.rules@.len()
    &&& item.dot < g.rules@[item.rule as int].body@.len()
    &&& g.symbols@[next_symbol(g, item)] is Terminal
    &&& row[next_symbol(g, item)]
}

/// Scanning: for each item of `prev` whose terminal `row` accepts,
/// `items` holds it with the dot behind the terminal.
pub open spec fn scanned<P>(
    g: &Grammar<P>,
    prev: Seq<Item>,
    row: Seq<bool>,
    items: Seq<Item>,
    col: int,
) -> bool {
    forall|j: int|
        0 <= j < prev.len() && scans(g, row, #[trigger] prev[j]) ==> holds(
            items,
            advanced(prev[j], col),
        )
}

/// Whether no item of `prev` can go on over the lexeme of `row`.
pub open spec fn stalled<P>(g: &Grammar<P>, prev: Seq<Item>, row: Seq<bool>) -> bool {
    forall|j: int| 0 <= j < prev.len() ==> !scans(g, row, #[trigger] prev[j])
}

/// Whether `items` holds the start of each rule of the start symbol.
pub open spec fn seeded<P>(g: &Grammar<P>, items: Seq<Item>) -> bool {
    forall|r: int|
        0 <= r < g.rules@.len() && (#[trigger] g.rules@[r]).head == g.start ==> holds(
            items,
            start_item(r, 0),
        )
}

/// Whether `table` says of each lexeme, for each symbol of the grammar,
/// whether the lexeme is an instance of it, and of no nonterminal that
/// it is.
pub open spec fn table_fits<P>(g: &Grammar<P>, table: Seq<Vec<bool>>) -> bool {
    forall|i: int|
        0 <= i < table.len() ==> (#[trigger] table[i])@.len() == g.symbols@.len()
}

/// What column `c + 1` owes to column `c` and the lexeme between them.
pub open spec fn linked<P>(g: &Grammar<P>, table: Seq<Vec<bool>>, chart: Seq<StateSet>, c: int) -> bool {
    &&& chart[c]@.len() > 0
    &&& scanned(g, chart[c]@, table[c]@, chart[c + 1]@, c + 1)
    &&& chart[c + 1]@.len() == 0 <==> stalled(g, chart[c]@, table[c]@)
}

/// Whether `chart` is a chart of the grammar for the lexemes that
/// `table` describes: the first column holds the start rules; each
/// column holds valid items, none twice, and what it owes to each of
/// them; each column but the first holds what scanning the column
/// before it gives, and is empty only where that gives nothing; and the
/// chart ends with the last lexeme or with the first empty column.
pub open spec fn is_chart<P>(g: &Grammar<P>, table: Seq<Vec<bool>>, chart: Seq<StateSet>) -> bool {
    &&& 1 <= chart.len() <= table.len() + 1
    &&& valid_chart(g, chart)
    &&& seeded(g, chart[0]@)
    &&& forall|c: int|
        0 <= c < chart.len() ==> saturated(
            g,
            chart,
            (#[trigger] chart[c])@,
            c,
            chart[c]@.len() as int,
        )
    &&& forall|c: int| 0 <= c < chart.len() - 1 ==> #[trigger] linked(g, table, chart, c)
    &&& chart.len() == table.len() + 1 || chart.last()@.len() == 0
}

/// The first empty column from `from` on, or the number of columns.
pub open spec fn first_empty(chart: Seq<StateSet>, from: int) -> int
    decreases chart.len() - from,
{
    if from < 0 || from >= chart.len() {
        chart.len() as int
    } else if chart[from]@.len() == 0 {
        from
    } else {
        first_empty(chart, from + 1)
    }
}

/// Whether one of the first `upto` columns recognises the start symbol
/// from the first column on.
pub open spec fn any_accepting<P>(g: &Grammar<P>, chart: Seq<StateSet>, upto: int) -> bool {
    exists|j: int| 0 <= j < upto && accepting(g, (#[trigger] chart[j])@)
}

/// The outcome for a chart over `n` lexemes; `None` is success. With
/// an empty column the input is a partial parse if a column before it
/// recognises the start symbol, else bad; without one the parse
/// succeeds if the chart has a column behind each lexeme and the last
/// recognises the start symbol, else the input is bad.
pub open spec fn verdict<P>(g: &Grammar<P>, chart: Seq<StateSet>, n: int) -> Option<ParseError> {
    let d = first_empty(chart, 0);
    if d < chart.len() {
        if any_accepting(g, chart, d) {
            Some(ParseError::PartialParse)
        } else {
            Some(ParseError::BadInput)
        }
    } else if chart.len() == n + 1 && accepting(g, chart.last()@) {
        None
    } else {
        Some(ParseError::BadInput)
    }
}

/// Whether `r` is the outcome `v` for `chart`.
pub open spec fn outcome(r: Result<ParseState, ParseError>, chart: Seq<StateSet>, v: Option<ParseError>) -> bool {
    match v {
        None => r matches Ok(ps) && ps.states@ == chart,
        Some(e) => r matches Err(f) && f == e,
    }
}

proof fn lemma_saturated_frame<P>(g: &Grammar<P>, a: Seq<StateSet>, b: Seq<StateSet>, items: Seq<Item>, col: int)
    requires
        col <= a.len(),
        col <= b.len(),
        forall|o: int| 0 <= o < col ==> a[o] == b[o],
        saturated(g, a, items, col, items.len() as int),
    ensures
        saturated(g, b, items, col, items.len() as int),
{
    assert forall|i: int| 0 <= i < items.len() implies settled(g, b, items, col, #[trigger] items[i]) by {
        let item = items[i];
        assert(settled(g, a, items, col, item));
        if complete(g, item) && item.origin < col {
            assert(a[item.origin as int] == b[item.origin as int]);
        }
    }
}

/// Whether `r` is the result of parsing the lexemes that `table`
/// describes: the outcome for the chart of the grammar for them.
pub open spec fn parsed<P>(g: &Grammar<P>, table: Seq<Vec<bool>>, r: Result<ParseState, ParseError>) -> bool {
    exists|chart: Seq<StateSet>| #[trigger]
        is_chart(g, table, chart) && columns(chart) == chart_of(g, rows(table)) && outcome(
            r,
            chart,
            verdict(g, chart, table.len() as int),
        )
}

proof fn lemma_first_empty_by_columns(a: Seq<StateSet>, b: Seq<StateSet>, from: int)
    requires
        columns(a) == columns(b),
    ensures
        first_empty(a, from) == first_empty(b, from),
    decreases a.len() - from,
{
    assert(a.len() == columns(a).len() && b.len() == columns(b).len());
    if 0 <= from < a.len() {
        assert(a[from]@ == columns(a)[from] && b[from]@ == columns(b)[from]);
        if a[from]@.len() != 0 {
            lemma_first_empty_by_columns(a, b, from + 1);
        }
    }
}

/// The outcome for a chart depends on the items of its columns alone.
pub proof fn lemma_verdict_by_columns<P>(g: &Grammar<P>, a: Seq<StateSet>, b: Seq<StateSet>, n: int)
    requires
        0 <= n,
        columns(a) == columns(b),
    ensures
        verdict(g, a, n) == verdict(g, b, n),
{
    assert(a.len() == columns(a).len() && b.len() == columns(b).len());
    lemma_first_empty_by_columns(a, b, 0);
    lemma_first_empty_bound(a, 0);
    let d = first_empty(a, 0);
    if a.len() > 0 {
        assert(a.last()@ == columns(a)[a.len() - 1] && b.last()@ == columns(b)[b.len() - 1]);
        assert(a.last()@ == b.last()@);
    }
    if any_accepting(g, a, d) {
        let j = choose|j: int| 0 <= j < d && accepting(g, (#[trigger] a[j])@);
        assert(a[j]@ == columns(a)[j] && b[j]@ == columns(b)[j]);
        assert(accepting(g, b[j]@));
        assert(any_accepting(g, b, d));
    }
    if any_accepting(g, b, d) {
        let j = choose|j: int| 0 <= j < d && accepting(g, (#[trigger] b[j])@);
        assert(a[j]@ == columns(a)[j] && b[j]@ == columns(b)[j]);
        assert(accepting(g, a[j]@));
        assert(any_accepting(g, a, d));
    }
}

proof fn lemma_first_empty_bound(chart: Seq<StateSet>, from: int)
    requires
        0 <= from,
    ensures
        first_empty(chart, from) <= chart.len(),
    decreases chart.len() - from,
{
    if from < chart.len() && chart[from]@.len() != 0 {
        lemma_first_empty_bound(chart, from + 1);
    }
}

/// Parsing the same lexemes twice gives the same: both parses succeed
/// with charts that hold the same items in the same order, or both
/// fail for the same reason.
pub proof fn lemma_parse_twice<P>(
    g: &Grammar<P>,
    table: Seq<Vec<bool>>,
    first: Result<ParseState, ParseError>,
    second: Result<ParseState, ParseError>,
)
    requires
        parsed(g, table, first),
        parsed(g, table, second),
    ensures
        match (first, second) {
            (Ok(a), Ok(b)) => columns(a.states@) == columns(b.states@),
            (Err(e), Err(f)) => e == f,
            _ => false,
        },
{
    let a = choose|chart: Seq<StateSet>| #[trigger]
        is_chart(g, table, chart) && columns(chart) == chart_of(g, rows(table)) && outcome(
            first,
            chart,
            verdict(g, chart, table.len() as int),
        );
    let b = choose|chart: Seq<StateSet>| #[trigger]
        is_chart(g, table, chart) && columns(chart) == chart_of(g, rows(table)) && outcome(
            second,
            chart,
            verdict(g, chart, table.len() as int),
        );
    lemma_verdict_by_columns(g, a, b, table.len() as int);
}

/// Whether a column recognises the start symbol from the first column on.
pub fn has_accepting<P>(g: &Grammar<P>, set: &StateSet) -> (r: bool)
    ensures
        r == accepting(g, set@),
{
    let mut i: usize = 0;
    while i < set.len()
        invariant
            i <= set@.len(),
            forall|j: int| 0 <= j < i ==> !accepts(g, #[trigger] set@[j]),
        decreases set@.len() - i,
    {
        let item = set.get(i);
        if item.rule < g.rules.len() && item.dot == g.rules[item.rule].body.len() && item.origin
            == 0 && g.rules[item.rule].head == g.start {
            return true;
        }
        i += 1;
    }
    false
}

/// The items that scanning column `col - 1` over a lexeme gives to column `col`.
fn scan<P>(g: &Grammar<P>, prev: &StateSet, row: &Vec<bool>, col: usize) -> (set: StateSet)
    requires
        g.wf(),
        col >= 1,
        valid_column(g, prev@, col - 1),
        row@.len() == g.symbols@.len(),
    ensures
        set.wf(),
        valid_column(g, set@, col as int),
        scanned(g, prev@, row@, set@, col as int),
        set@.len() == 0 <==> stalled(g, prev@, row@),
        set@ == scan_all(g, prev@, row@, col as int, prev@.len() as int),
{
    let mut set = StateSet::new();
    let mut j: usize = 0;
    while j < prev.len()
        invariant
            j <= prev@.len(),
            g.wf(),
            col >= 1,
            valid_column(g, prev@, col - 1),
            row@.len() == g.symbols@.len(),
            set.wf(),
            valid_column(g, set@, col as int),
            forall|q: int|
                0 <= q < j && scans(g, row@, #[trigger] prev@[q]) ==> holds(
                    set@,
                    advanced(prev@[q], col as int),
                ),
            set@.len() == 0 <==> forall|q: int| 0 <= q < j ==> !scans(g, row@, #[trigger] prev@[q]),
            set@ == scan_all(g, prev@, row@, col as int, j as int),
        decreases prev@.len() - j,
    {
        let it = prev.get(j);
        let ghost before = set@;
        assert(valid_item(g, it, col - 1));
        if it.dot < g.rules[it.rule].body.len() {
            let sym = g.rules[it.rule].body[it.dot];
            if g.symbols[sym].is_terminal() && row[sym] {
                set.push(Item::new(it.rule, it.dot + 1, it.origin, col));
            }
        }
        proof {
            assert(grows(before, set@));
            assert forall|q: int| 0 <= q < j + 1 && scans(g, row@, #[trigger] prev@[q]) implies holds(
                set@,
                advanced(prev@[q], col as int),
            ) by {
                if q < j {
                    lemma_holds_grows(before, set@, advanced(prev@[q], col as int));
                }
            }
        }
        j += 1;
    }
    set
}

/// The outcome for `chart` over `n` lexemes.
pub fn classify<P>(g: &Grammar<P>, chart: Vec<StateSet>, n: usize) -> (r: Result<
    ParseState,
    ParseError,
>)
    ensures
        outcome(r, chart@, verdict(g, chart@, n as int)),
{
    let mut partial = false;
    let mut d: usize = 0;
    while d < chart.len()
        invariant
            d <= chart@.len(),
            first_empty(chart@, d as int) == first_empty(chart@, 0),
            partial == any_accepting(g, chart@, d as int),
        decreases chart@.len() - d,
    {
        if chart[d].is_empty() {
            if partial {
                return Err(ParseError::PartialParse);
            }
            return Err(ParseError::BadInput);
        }
        let here = has_accepting(g, &chart[d]);
        proof {
            if partial {
                let j = choose|j: int| 0 <= j < d && accepting(g, (#[trigger] chart@[j])@);
                assert(0 <= j < d + 1 && accepting(g, chart@[j]@));
            }
            if here {
                assert(accepting(g, chart@[d as int]@));
            }
        }
        partial = partial || here;
        d += 1;
    }
    if chart.len() >= 1 && chart.len() - 1 == n && has_accepting(g, &chart[chart.len() - 1]) {
        Ok(ParseState { states: chart })
    } else {
        Err(ParseError::BadInput)
    }
}

/// Finds the derivations of a sequence of lexemes from a grammar.
pub struct EarleyParser<P> {
    pub g: Grammar<P>,
}

impl<P: Predicate> EarleyParser<P> {
    pub fn new(grammar: Grammar<P>) -> (p: EarleyParser<P>)
        ensures
            p.g == grammar,
    {
        EarleyParser { g: grammar }
    }

    /// Asks the predicate of each terminal about each lexeme: entry `s`
    /// of row `i` says whether lexeme `i` is an instance of symbol `s`.
    pub fn matches(&self, lexemes: &Vec<String>) -> (table: Vec<Vec<bool>>)
        ensures
            table@.len() == lexemes@.len(),
            table_fits(&self.g, table@),
            forall|i: int, s: int|
                0 <= i < table@.len() && 0 <= s < self.g.symbols@.len() && (
                #[trigger] table@[i]@[s]) ==> self.g.symbols@[s] is Terminal,
    {
        let mut table: Vec<Vec<bool>> = Vec::new();
        let mut i: usize = 0;
        while i < lexemes.len()
            invariant
                i <= lexemes@.len(),
                table@.len() == i,
                table_fits(&self.g, table@),
                forall|k: int, s: int|
                    0 <= k < table@.len() && 0 <= s < self.g.symbols@.len() && (
                    #[trigger] table@[k]@[s]) ==> self.g.symbols@[s] is Terminal,
            decreases lexemes@.len() - i,
        {
            let mut row: Vec<bool> = Vec::new();
            let mut s: usize = 0;
            while s < self.g.symbols.len()
                invariant
                    s <= self.g.symbols@.len(),
                    i < lexemes@.len(),
                    row@.len() == s,
                    forall|q: int| 0 <= q < s && #[trigger] row@[q] ==> self.g.symbols@[q] is Terminal,
                decreases self.g.symbols@.len() - s,
            {
                let hit = match &self.g.symbols[s] {
                    Symbol::Nonterminal(_) => false,
                    Symbol::Terminal(_, pred) => pred.accepts(lexemes[i].as_str()),
                };
                row.push(hit);
                s += 1;
            }
            table.push(row);
            i += 1;
        }
        table
    }

    /// The chart for the lexemes that `table` describes.
    pub fn recognize(&self, table: &Vec<Vec<bool>>) -> (chart: Vec<StateSet>)
        requires
            self.g.wf(),
            table_fits(&self.g, table@),
        ensures
            is_chart(&self.g, table@, chart@),
            columns(chart@) == chart_of(&self.g, rows(table@)),
    {
        let g = &self.g;
        let mut chart: Vec<StateSet> = Vec::new();
        let mut first = StateSet::new();
        predict(g, &mut first, g.start, 0);
        let ghost seeds = first@;
        saturate(g, &chart, &mut first, 0);
        proof {
            assert forall|r: int|
                0 <= r < g.rules@.len() && (#[trigger] g.rules@[r]).head == g.start implies holds(
                first@,
                start_item(r, 0),
            ) by {
                lemma_holds_grows(seeds, first@, start_item(r, 0));
            }
            lemma_saturated_frame(g, chart@, chart@.push(first), first@, 0);
            assert(columns(chart@) =~= Seq::<Seq<Item>>::empty());
            assert(first@ == first_column(g));
            assert(columns(chart@.push(first)) =~= seq![first_column(g)]);
        }
        chart.push(first);
        let mut i: usize = 0;
        while i < table.len() && !chart[i].is_empty()
            invariant
                i <= table@.len(),
                chart@.len() == i + 1,
                g.wf(),
                g == &self.g,
                table_fits(g, table@),
                valid_chart(g, chart@),
                seeded(g, chart@[0]@),
                forall|c: int|
                    0 <= c < chart@.len() ==> saturated(
                        g,
                        chart@,
                        (#[trigger] chart@[c])@,
                        c,
                        chart@[c]@.len() as int,
                    ),
                forall|c: int| 0 <= c < chart@.len() - 1 ==> #[trigger] linked(g, table@, chart@, c),
                grown(g, rows(table@), columns(chart@)) == chart_of(g, rows(table@)),
            decreases table@.len() - i,
        {
            let ghost old_chart = chart@;
            assert(chart@[i as int].wf() && valid_column(g, chart@[i as int]@, i as int));
            assert(table@[i as int]@.len() == g.symbols@.len());
            let mut next = scan(g, &chart[i], &table[i], i + 1);
            let ghost scanned_items = next@;
            saturate(g, &chart, &mut next, i + 1);
            proof {
                let new_chart = old_chart.push(next);
                assert(columns(old_chart).last() == old_chart[i as int]@);
                assert(rows(table@)[i as int] == table@[i as int]@);
                assert(next@ == next_column(g, columns(old_chart), rows(table@)[i as int]));
                assert(columns(new_chart) =~= columns(old_chart).push(next@));
                assert forall|j: int|
                    0 <= j < old_chart[i as int]@.len() && scans(
                        g,
                        table@[i as int]@,
                        #[trigger] old_chart[i as int]@[j],
                    ) implies holds(next@, advanced(old_chart[i as int]@[j], i + 1)) by {
                    lemma_holds_grows(scanned_items, next@, advanced(old_chart[i as int]@[j], i + 1));
                }
                assert(linked(g, table@, new_chart, i as int));
                assert forall|c: int| 0 <= c < new_chart.len() - 1 implies #[trigger] linked(
                    g,
                    table@,
                    new_chart,
                    c,
                ) by {
                    if c < i {
                        assert(linked(g, table@, old_chart, c));
                    }
                }
                assert forall|c: int| 0 <= c < new_chart.len() implies saturated(
                    g,
                    new_chart,
                    (#[trigger] new_chart[c])@,
                    c,
                    new_chart[c]@.len() as int,
                ) by {
                    if c <= i {
                        assert(old_chart[c] == new_chart[c]);
                        lemma_saturated_frame(g, old_chart, new_chart, old_chart[c]@, c);
                    } else {
                        lemma_saturated_frame(g, old_chart, new_chart, next@, c);
                    }
                }
            }
            chart.push(next);
            i += 1;
        }
        chart
    }

    /// The chart for the lexemes that `table` describes if the grammar
    /// derives them, or why it does not.
    pub fn parse_matches(&self, table: &Vec<Vec<bool>>) -> (r: Result<ParseState, ParseError>)
        requires
            self.g.wf(),
            table_fits(&self.g, table@),
        ensures
            parsed(&self.g, table@, r),
    {
        let chart = self.recognize(table);
        let ghost seen = chart@;
        let r = classify(&self.g, chart, table.len());
        assert(is_chart(&self.g, table@, seen) && columns(seen) == chart_of(&self.g, rows(table@))
            && outcome(r, seen, verdict(&self.g, seen, table@.len() as int)));
        r
    }

    /// Parses the lexemes that `lexer` still gives: the chart if the
    /// grammar derives them, as its terminals' predicates judge them, or
    /// why it does not.
    pub fn parse(&self, lexer: &mut Lexer) -> (r: Result<ParseState, ParseError>)
        requires
            self.g.wf(),
            old(lexer).wf(),
        ensures
            final(lexer).wf(),
            exists|table: Seq<Vec<bool>>|
                table.len() == old(lexer).remaining().len() && table_fits(&self.g, table)
                    && #[trigger] parsed(&self.g, table, r),
            r matches Ok(ps) ==> ps.states@.len() == old(lexer).remaining().len() + 1
                && valid_chart(&self.g, ps.states@) && accepting(&self.g, ps.states@.last()@),
    {
        let lexemes = lexer.rest();
        assert(string_views(lexemes@).len() == lexemes@.len());
        let table = self.matches(&lexemes);
        let r = self.parse_matches(&table);
        proof {
            assert(parsed(&self.g, table@, r));
            let chart = choose|chart: Seq<StateSet>| #[trigger]
                is_chart(&self.g, table@, chart) && columns(chart) == chart_of(
                    &self.g,
                    rows(table@),
                ) && outcome(r, chart, verdict(&self.g, chart, table@.len() as int));
            lemma_first_empty_bound(chart, 0);
        }
        r
    }
}

} // verus!
