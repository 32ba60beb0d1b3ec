use vstd::prelude::*;
use crate::earley::grammar::Grammar;
use crate::earley::parser::{valid_chart, valid_column, valid_item, ParseState};
use crate::earley::types::{holds, Item, StateSet};

verus! {

/// A derivation: a leaf is the lexeme at a position, recognised as a
/// terminal; a node is a rule applied between two columns, with one
/// child for each symbol of its body.
#[derive(Debug, PartialEq, Eq)]
pub enum Tree {
    Leaf { symbol: usize, at: usize },
    Node { rule: usize, origin: usize, end: usize, kids: Vec<Tree> },
}

impl Tree {
    /// The column where the tree starts.
    pub open spec fn from(self) -> int {
        match self {
            Tree::Leaf { at, .. } => at as int,
            Tree::Node { origin, .. } => origin as int,
        }
    }

    /// The column where the tree ends.
    pub open spec fn to(self) -> int {
        match self {
            Tree::Leaf { at, .. } => at + 1,
            Tree::Node { end, .. } => end as int,
        }
    }

    /// The symbol that the tree derives from.
    pub open spec fn symbol<P>(self, g: &Grammar<P>) -> int {
        match self {
            Tree::Leaf { symbol, .. } => symbol as int,
            Tree::Node { rule, .. } => g.rules@[rule as int].head as int,
        }
    }
}

/// Rule `rule` with the dot behind `dot` symbols, begun in column `origin`.
pub open spec fn dotted(rule: int, dot: int, origin: int) -> Item {
    Item { rule: rule as usize, dot: dot as usize, origin: origin as usize, end: 0 }
}

/// Whether child `i` of `kids` ends where the next one starts.
pub open spec fn joined(kids: Seq<Tree>, i: int) -> bool {
    kids[i].to() == kids[i + 1].from()
}

/// Whether `kids` lie end to end from column `from` to column `to`.
pub open spec fn chained(kids: Seq<Tree>, from: int, to: int) -> bool {
    if kids.len() == 0 {
        from == to
    } else {
        &&& kids[0].from() == from
        &&& kids.last().to() == to
        &&& forall|i: int| 0 <= i < kids.len() - 1 ==> #[trigger] joined(kids, i)
    }
}

/// Whether `kids` derive the first symbols of the body of `rule` from
/// column `origin` on, each prefix of them recognised in the chart.
pub open spec fn kids_fit<P>(
    g: &Grammar<P>,
    chart: Seq<StateSet>,
    kids: Seq<Tree>,
    rule: int,
    origin: int,
) -> bool {
    forall|i: int| 0 <= i < kids.len() ==> #[trigger] kid_fits(g, chart, kids, rule, origin, i)
}

/// Whether child `i` of `kids` derives symbol `i` of the body of `rule`
/// and the chart holds the rule with the dot behind that symbol where
/// the child ends.
pub open spec fn kid_fits<P>(
    g: &Grammar<P>,
    chart: Seq<StateSet>,
    kids: Seq<Tree>,
    rule: int,
    origin: int,
    i: int,
) -> bool {
    &&& kids[i].symbol(g) == g.rules@[rule].body@[i]
    &&& 0 <= kids[i].to() < chart.len()
    &&& holds(chart[kids[i].to()]@, dotted(rule, i + 1, origin))
}

/// Whether the root of `t` fits the grammar and the chart.
pub open spec fn root_fits<P>(g: &Grammar<P>, chart: Seq<StateSet>, t: Tree) -> bool {
    match t {
        Tree::Leaf { symbol, at } => symbol < g.symbols@.len() && g.symbols@[symbol as int] is Terminal
            && at + 1 < chart.len(),
        Tree::Node { rule, origin, end, kids } => {
            &&& rule < g.rules@.len()
            &&& origin <= end < chart.len()
            &&& kids@.len() == g.rules@[rule as int].body@.len()
            &&& holds(chart[end as int]@, dotted(rule as int, kids@.len() as int, origin as int))
            &&& chained(kids@, origin as int, end as int)
            &&& kids_fit(g, chart, kids@, rule as int, origin as int)
        },
    }
}

/// Whether `t` is a derivation of the grammar that the chart supports:
/// a leaf stands for a terminal; a node applies a rule that the chart
/// holds complete between the node's columns, and its children derive
/// the symbols of the rule's body, end to end.
pub open spec fn derivation<P>(g: &Grammar<P>, chart: Seq<StateSet>, t: Tree) -> bool
    decreases t,
{
    root_fits(g, chart, t) && match t {
        Tree::Leaf { .. } => true,
        Tree::Node { kids, .. } => forall|i: int|
            0 <= i < kids@.len() ==> derivation(g, chart, #[trigger] kids@[i]),
    }
}

/// The positions of the leaves of `t`, from left to right.
pub open spec fn leaves(t: Tree) -> Seq<int>
    decreases t, 1int,
{
    match t {
        Tree::Leaf { at, .. } => seq![at as int],
        Tree::Node { kids, .. } => leaves_of(t, kids@.len() as int),
    }
}

/// The positions of the leaves of the first `n` children of `t`.
pub open spec fn leaves_of(t: Tree, n: int) -> Seq<int>
    decreases t, 0int, n,
{
    match t {
        Tree::Leaf { .. } => Seq::empty(),
        Tree::Node { kids, .. } => if 0 < n <= kids@.len() {
            leaves_of(t, n - 1) + leaves(kids@[n - 1])
        } else {
            Seq::empty()
        },
    }
}

/// The positions from `from` up to `to`.
pub open spec fn positions(from: int, to: int) -> Seq<int> {
    Seq::new((to - from) as nat, |i: int| from + i)
}

/// The leaves of a derivation are the positions between its columns,
/// each once and in order: read from left to right, the lexemes of the
/// leaves are the lexemes of the input between those columns.
pub proof fn lemma_leaves_in_order<P>(g: &Grammar<P>, chart: Seq<StateSet>, t: Tree)
    requires
        derivation(g, chart, t),
    ensures
        t.from() <= t.to(),
        leaves(t) == positions(t.from(), t.to()),
    decreases t, 1int,
{
    match t {
        Tree::Leaf { at, .. } => {
            assert(leaves(t) =~= positions(t.from(), t.to()));
        },
        Tree::Node { kids, origin, end, .. } => {
            lemma_kids_in_order(g, chart, t, kids@.len() as int);
            if kids@.len() > 0 {
                assert(kids@.last().to() == end);
            }
        },
    }
}

proof fn lemma_kids_in_order<P>(g: &Grammar<P>, chart: Seq<StateSet>, t: Tree, n: int)
    requires
        derivation(g, chart, t),
        t is Node,
        0 <= n <= t->kids@.len(),
    ensures
        n == 0 ==> leaves_of(t, n) == Seq::<int>::empty(),
        n > 0 ==> t->origin <= t->kids@[n - 1].to() && leaves_of(t, n) == positions(
            t->origin as int,
            t->kids@[n - 1].to(),
        ),
    decreases t, 0int, n,
{
    let kids = t->kids@;
    if n > 0 {
        lemma_kids_in_order(g, chart, t, n - 1);
        lemma_leaves_in_order(g, chart, kids[n - 1]);
        let mid = kids[n - 1].from();
        if n == 1 {
            assert(mid == t->origin);
            assert(leaves_of(t, 0) + leaves(kids[0]) =~= positions(t->origin as int, kids[0].to()));
        } else {
            assert(joined(kids, n - 2));
            assert(positions(t->origin as int, mid) + positions(mid, kids[n - 1].to()) =~= positions(
                t->origin as int,
                kids[n - 1].to(),
            ));
        }
    }
}

/// `a + b`, or `cap` where that is more.
pub open spec fn capped(a: int, b: int, cap: int) -> int {
    if b >= cap - a {
        cap
    } else {
        a + b
    }
}

/// `total` and `n` times `each`, or `cap` where that is more.
pub open spec fn capped_times(total: int, each: int, n: int, cap: int) -> int
    decreases n,
{
    if n <= 0 || total >= cap {
        total
    } else {
        capped_times(capped(total, each, cap), each, n - 1, cap)
    }
}

fn capped_sum(a: usize, b: usize, cap: usize) -> (r: usize)
    requires
        a <= cap,
    ensures
        r <= cap,
        r == capped(a as int, b as int, cap as int),
{
    if b >= cap - a {
        cap
    } else {
        a + b
    }
}

/// Whether column `col` holds rule `rule` with the dot behind `dot`
/// symbols, begun in column `origin`.
fn item_at(chart: &Vec<StateSet>, col: usize, rule: usize, dot: usize, origin: usize) -> (r: bool)
    requires
        col < chart@.len(),
    ensures
        r == holds(chart@[col as int]@, dotted(rule as int, dot as int, origin as int)),
{
    let probe = Item::new(rule, dot, origin, col);
    assert(probe.key() == dotted(rule as int, dot as int, origin as int).key());
    chart[col].contains(&probe)
}

/// How many items the first `upto` columns of `chart` hold.
pub open spec fn total_items(chart: Seq<StateSet>, upto: int) -> int
    decreases upto,
{
    if upto <= 0 {
        0
    } else {
        total_items(chart, upto - 1) + chart[upto - 1]@.len()
    }
}

/// How many rules a search for derivations applies below one another:
/// one more than the chart has items, so that no branch needs an item
/// twice; at most the largest number.
pub open spec fn depth_limit(chart: Seq<StateSet>) -> int {
    if total_items(chart, chart.len() as int) + 1 < usize::MAX {
        total_items(chart, chart.len() as int) + 1
    } else {
        usize::MAX as int
    }
}

fn budget(chart: &Vec<StateSet>) -> (fuel: usize)
    ensures
        fuel == depth_limit(chart@),
{
    let mut items: usize = 1;
    let mut c: usize = 0;
    while c < chart.len()
        invariant
            c <= chart@.len(),
            items == (if total_items(chart@, c as int) + 1 < usize::MAX {
                total_items(chart@, c as int) + 1
            } else {
                usize::MAX as int
            }),
            0 <= total_items(chart@, c as int),
        decreases chart@.len() - c,
    {
        let n = chart[c].len();
        if n < usize::MAX - items {
            items = items + n;
        } else {
            items = usize::MAX;
        }
        c += 1;
    }
    items
}

/// What the search for the children of a rule asks of its arguments.
pub open spec fn searchable<P>(
    g: &Grammar<P>,
    chart: Seq<StateSet>,
    rule: int,
    dot: int,
    origin: int,
    end: int,
) -> bool {
    &&& g.wf()
    &&& valid_chart(g, chart)
    &&& 0 <= rule < g.rules@.len()
    &&& 0 <= dot <= g.rules@[rule].body@.len()
    &&& 0 <= origin <= end < chart.len()
}

/// Whether `kids` are derivations of the first symbols of the body of
/// `rule`, end to end between the columns `origin` and `end`.
pub open spec fn kids_derive<P>(
    g: &Grammar<P>,
    chart: Seq<StateSet>,
    kids: Seq<Tree>,
    rule: int,
    origin: int,
    end: int,
) -> bool {
    &&& chained(kids, origin, end)
    &&& kids_fit(g, chart, kids, rule, origin)
    &&& forall|i: int| 0 <= i < kids.len() ==> derivation(g, chart, #[trigger] kids[i])
}

proof fn lemma_kids_push<P>(
    g: &Grammar<P>,
    chart: Seq<StateSet>,
    pre: Seq<Tree>,
    last: Tree,
    rule: int,
    origin: int,
    end: int,
)
    requires
        0 <= rule < g.rules@.len(),
        pre.len() < g.rules@[rule].body@.len(),
        kids_derive(g, chart, pre, rule, origin, last.from()),
        derivation(g, chart, last),
        last.symbol(g) == g.rules@[rule].body@[pre.len() as int],
        last.to() == end,
        0 <= end < chart.len(),
        holds(chart[end]@, dotted(rule, pre.len() as int + 1, origin)),
    ensures
        kids_derive(g, chart, pre.push(last), rule, origin, end),
{
    let kids = pre.push(last);
    assert forall|i: int| 0 <= i < kids.len() - 1 implies #[trigger] joined(kids, i) by {
        if i < pre.len() - 1 {
            assert(joined(pre, i));
        }
    }
    assert forall|i: int| 0 <= i < kids.len() implies #[trigger] kid_fits(
        g,
        chart,
        kids,
        rule,
        origin,
        i,
    ) by {
        if i < pre.len() {
            assert(kid_fits(g, chart, pre, rule, origin, i));
        }
    }
    assert forall|i: int| 0 <= i < kids.len() implies derivation(g, chart, #[trigger] kids[i]) by {
        if i < pre.len() {
            assert(derivation(g, chart, pre[i]));
        }
    }
}

/// A derivation as plain values.
pub enum TreeView {
    Leaf { symbol: int, at: int },
    Node { rule: int, origin: int, end: int, kids: Seq<TreeView> },
}

/// The plain values of `t`.
pub open spec fn shape(t: Tree) -> TreeView
    decreases t,
{
    match t {
        Tree::Leaf { symbol, at } => TreeView::Leaf { symbol: symbol as int, at: at as int },
        Tree::Node { rule, origin, end, kids } => TreeView::Node {
            rule: rule as int,
            origin: origin as int,
            end: end as int,
            kids: Seq::new(
                kids@.len(),
                |i: int|
                    if 0 <= i < kids@.len() {
                        shape(kids@[i])
                    } else {
                        TreeView::Leaf { symbol: 0, at: 0 }
                    },
            ),
        },
    }
}

/// The plain values of each of `kids`.
pub open spec fn shapes(kids: Seq<Tree>) -> Seq<TreeView> {
    Seq::new(kids.len(), |i: int| shape(kids[i]))
}

/// The plain values of `t`, if there is one.
pub open spec fn shape_of(t: Option<Tree>) -> Option<TreeView> {
    match t {
        Some(t) => Some(shape(t)),
        None => None,
    }
}

/// Whether item `j` of column `end` can stand for the last of the first
/// `dot` symbols of the body of `rule`: it is complete, its head is that
/// symbol, and the chart holds `rule` with the dot before that symbol
/// in the column where the item began.
pub open spec fn candidate<P>(
    g: &Grammar<P>,
    chart: Seq<StateSet>,
    rule: int,
    dot: int,
    origin: int,
    end: int,
    j: int,
) -> bool {
    let cand = chart[end]@[j];
    &&& cand.dot == g.rules@[cand.rule as int].body@.len()
    &&& g.rules@[cand.rule as int].head == g.rules@[rule].body@[dot - 1]
    &&& cand.origin >= origin
    &&& holds(chart[cand.origin as int]@, dotted(rule, dot - 1, origin))
}

/// The first derivation of the whole body of `rule` between the columns
/// `origin` and `end` that applies at most `fuel` rules below one another.
pub open spec fn first_node<P>(
    g: &Grammar<P>,
    chart: Seq<StateSet>,
    rule: int,
    origin: int,
    end: int,
    fuel: nat,
) -> Option<TreeView>
    decreases fuel, 0int, 0int, 0int,
{
    if fuel == 0 {
        None
    } else {
        match first_kids(
            g,
            chart,
            rule,
            g.rules@[rule].body@.len() as int,
            origin,
            end,
            (fuel - 1) as nat,
        ) {
            Some(kids) => Some(TreeView::Node { rule, origin, end, kids }),
            None => None,
        }
    }
}

/// The first derivation of the first `dot` symbols of the body of
/// `rule` between the columns `origin` and `end`: the last of these
/// symbols is settled first. A terminal is the lexeme before `end`; a
/// nonterminal is the first item of column `end` that can stand for it
/// and has a derivation, with a derivation of the symbols before it.
pub open spec fn first_kids<P>(
    g: &Grammar<P>,
    chart: Seq<StateSet>,
    rule: int,
    dot: int,
    origin: int,
    end: int,
    fuel: nat,
) -> Option<Seq<TreeView>>
    decreases fuel, 1int, dot, chart[end]@.len() + 1,
{
    if dot <= 0 {
        if origin == end {
            Some(Seq::empty())
        } else {
            None
        }
    } else {
        let sym = g.rules@[rule].body@[dot - 1] as int;
        if g.symbols@[sym] is Terminal {
            if end > origin && holds(chart[end - 1]@, dotted(rule, dot - 1, origin)) {
                match first_kids(g, chart, rule, dot - 1, origin, end - 1, fuel) {
                    Some(kids) => Some(kids.push(TreeView::Leaf { symbol: sym, at: end - 1 })),
                    None => None,
                }
            } else {
                None
            }
        } else {
            first_choice(g, chart, rule, dot, origin, end, fuel, 0)
        }
    }
}

/// As `first_kids` for a nonterminal, with the items of column `end`
/// from index `j` on.
pub open spec fn first_choice<P>(
    g: &Grammar<P>,
    chart: Seq<StateSet>,
    rule: int,
    dot: int,
    origin: int,
    end: int,
    fuel: nat,
    j: int,
) -> Option<Seq<TreeView>>
    decreases fuel, 1int, dot, chart[end]@.len() - j,
{
    if dot <= 0 || j < 0 || j >= chart[end]@.len() {
        None
    } else {
        let cand = chart[end]@[j];
        if candidate(g, chart, rule, dot, origin, end, j) {
            match first_node(g, chart, cand.rule as int, cand.origin as int, end, fuel) {
                Some(sub) => match first_kids(
                    g,
                    chart,
                    rule,
                    dot - 1,
                    origin,
                    cand.origin as int,
                    fuel,
                ) {
                    Some(kids) => Some(kids.push(sub)),
                    None => first_choice(g, chart, rule, dot, origin, end, fuel, j + 1),
                },
                None => first_choice(g, chart, rule, dot, origin, end, fuel, j + 1),
            }
        } else {
            first_choice(g, chart, rule, dot, origin, end, fuel, j + 1)
        }
    }
}

/// The first derivation of the input from the start symbol: that of the
/// first item from index `j` on of the last column that recognises the
/// start symbol from the first column on and has one.
pub open spec fn first_root<P>(g: &Grammar<P>, chart: Seq<StateSet>, fuel: nat, j: int) -> Option<
    TreeView,
>
    decreases chart.last()@.len() - j,
{
    if chart.len() == 0 || j < 0 || j >= chart.last()@.len() {
        None
    } else {
        let cand = chart.last()@[j];
        let found = if cand.dot == g.rules@[cand.rule as int].body@.len() && cand.origin == 0
            && g.rules@[cand.rule as int].head == g.start {
            first_node(g, chart, cand.rule as int, 0, chart.len() - 1, fuel)
        } else {
            None
        };
        if found is Some {
            found
        } else {
            first_root(g, chart, fuel, j + 1)
        }
    }
}

/// The first derivation that the chart shows of its input from the
/// start symbol, if it shows one.
pub open spec fn first_tree<P>(g: &Grammar<P>, chart: Seq<StateSet>) -> Option<TreeView> {
    first_root(g, chart, depth_limit(chart) as nat, 0)
}

proof fn lemma_shapes_push(kids: Seq<Tree>, last: Tree)
    ensures
        shapes(kids.push(last)) == shapes(kids).push(shape(last)),
{
    assert(shapes(kids.push(last)) =~= shapes(kids).push(shape(last)));
}

proof fn lemma_shape_node(t: Tree)
    requires
        t is Node,
    ensures
        shape(t) == (TreeView::Node {
            rule: t->rule as int,
            origin: t->origin as int,
            end: t->end as int,
            kids: shapes(t->kids@),
        }),
{
    assert(shape(t)->kids =~= shapes(t->kids@));
}

fn search_kids<P>(
    g: &Grammar<P>,
    chart: &Vec<StateSet>,
    rule: usize,
    dot: usize,
    origin: usize,
    end: usize,
    fuel: usize,
) -> (r: Option<Vec<Tree>>)
    requires
        searchable(g, chart@, rule as int, dot as int, origin as int, end as int),
        dot > 0 ==> holds(chart@[end as int]@, dotted(rule as int, dot as int, origin as int)),
    ensures
        r matches Some(kids) ==> kids@.len() == dot && kids_derive(
            g,
            chart@,
            kids@,
            rule as int,
            origin as int,
            end as int,
        ),
        match first_kids(g, chart@, rule as int, dot as int, origin as int, end as int, fuel as nat) {
            Some(k) => r matches Some(kids) && shapes(kids@) == k,
            None => r is None,
        },
    decreases fuel, 1int, dot,
{
    if dot == 0 {
        if origin == end {
            let kids: Vec<Tree> = Vec::new();
            assert(shapes(kids@) =~= Seq::<TreeView>::empty());
            return Some(kids);
        }
        return None;
    }
    let sym = g.rules[rule].body[dot - 1];
    if g.symbols[sym].is_terminal() {
        if end > origin && item_at(chart, end - 1, rule, dot - 1, origin) {
            match search_kids(g, chart, rule, dot - 1, origin, end - 1, fuel) {
                Some(pre) => {
                    let mut kids = pre;
                    let leaf = Tree::Leaf { symbol: sym, at: end - 1 };
                    proof {
                        assert(root_fits(g, chart@, leaf));
                        lemma_kids_push(g, chart@, kids@, leaf, rule as int, origin as int, end as int);
                        lemma_shapes_push(kids@, leaf);
                    }
                    kids.push(leaf);
                    return Some(kids);
                },
                None => {
                    return None;
                },
            }
        }
        return None;
    }
    let mut j: usize = 0;
    assert(chart@[end as int].wf() && valid_column(g, chart@[end as int]@, end as int));
    while j < chart[end].len()
        invariant
            searchable(g, chart@, rule as int, dot as int, origin as int, end as int),
            dot > 0,
            j <= chart@[end as int]@.len(),
            sym == g.rules@[rule as int].body@[dot - 1],
            g.symbols@[sym as int] is Nonterminal,
            holds(chart@[end as int]@, dotted(rule as int, dot as int, origin as int)),
            valid_column(g, chart@[end as int]@, end as int),
            first_choice(
                g,
                chart@,
                rule as int,
                dot as int,
                origin as int,
                end as int,
                fuel as nat,
                j as int,
            ) == first_kids(g, chart@, rule as int, dot as int, origin as int, end as int, fuel as nat),
        decreases chart@[end as int]@.len() - j,
    {
        let cand = chart[end].get(j);
        assert(valid_item(g, cand, end as int));
        if cand.dot == g.rules[cand.rule].body.len() && g.rules[cand.rule].head == sym
            && cand.origin >= origin && item_at(chart, cand.origin, rule, dot - 1, origin) {
            proof {
                assert(chart@[end as int]@[j as int].key() == dotted(
                    cand.rule as int,
                    cand.dot as int,
                    cand.origin as int,
                ).key());
            }
            match search_node(g, chart, cand.rule, cand.origin, end, fuel) {
                Some(sub) => {
                    match search_kids(g, chart, rule, dot - 1, origin, cand.origin, fuel) {
                        Some(pre) => {
                            let mut kids = pre;
                            proof {
                                lemma_kids_push(
                                    g,
                                    chart@,
                                    kids@,
                                    sub,
                                    rule as int,
                                    origin as int,
                                    end as int,
                                );
                                lemma_shapes_push(kids@, sub);
                            }
                            kids.push(sub);
                            return Some(kids);
                        },
                        None => {},
                    }
                },
                None => {},
            }
        }
        j += 1;
    }
    None
}

fn search_node<P>(
    g: &Grammar<P>,
    chart: &Vec<StateSet>,
    rule: usize,
    origin: usize,
    end: usize,
    fuel: usize,
) -> (r: Option<Tree>)
    requires
        searchable(g, chart@, rule as int, 0, origin as int, end as int),
        holds(
            chart@[end as int]@,
            dotted(rule as int, g.rules@[rule as int].body@.len() as int, origin as int),
        ),
    ensures
        r matches Some(t) ==> derivation(g, chart@, t) && t == (Tree::Node {
            rule,
            origin,
            end,
            kids: t->kids,
        }),
        shape_of(r) == first_node(g, chart@, rule as int, origin as int, end as int, fuel as nat),
    decreases fuel, 0int, 0nat,
{
    if fuel == 0 {
        return None;
    }
    match search_kids(g, chart, rule, g.rules[rule].body.len(), origin, end, fuel - 1) {
        Some(kids) => {
            let t = Tree::Node { rule, origin, end, kids };
            proof {
                assert(root_fits(g, chart@, t));
                lemma_shape_node(t);
            }
            Some(t)
        },
        None => None,
    }
}

/// Whether `t` derives the whole of the chart's input from the start symbol.
pub open spec fn parses<P>(g: &Grammar<P>, chart: Seq<StateSet>, t: Tree) -> bool {
    &&& derivation(g, chart, t)
    &&& t is Node
    &&& t.symbol(g) == g.start
    &&& t.from() == 0
    &&& t.to() == chart.len() - 1
}

/// A derivation of the whole input reads it back: its leaves are the
/// positions of the lexemes, each once, from the first to the last.
pub proof fn lemma_tree_reads_input<P>(g: &Grammar<P>, chart: Seq<StateSet>, t: Tree)
    requires
        parses(g, chart, t),
    ensures
        leaves(t) == positions(0, chart.len() - 1),
{
    lemma_leaves_in_order(g, chart, t);
}

/// How many derivations a search for derivation number `k` counts at most.
pub open spec fn cap_of(k: int) -> int {
    if k < usize::MAX {
        k + 1
    } else {
        k
    }
}

/// How many derivations, up to `cap`, the chart shows of the whole body
/// of `rule` between the columns `origin` and `end`, with at most `fuel`
/// rules below one another.
pub open spec fn count_node<P>(
    g: &Grammar<P>,
    chart: Seq<StateSet>,
    rule: int,
    origin: int,
    end: int,
    fuel: nat,
    cap: int,
) -> int
    decreases fuel, 0int, 0int, 0int,
{
    if fuel == 0 {
        0
    } else {
        count_kids(
            g,
            chart,
            rule,
            g.rules@[rule].body@.len() as int,
            origin,
            end,
            (fuel - 1) as nat,
            cap,
        )
    }
}

/// How many derivations, up to `cap`, the chart shows of the first
/// `dot` symbols of the body of `rule` between the columns `origin` and
/// `end`: for a terminal those of the symbols before it; for a
/// nonterminal, summed over the items of column `end` that can stand
/// for it, those of the item times those of the symbols before it.
pub open spec fn count_kids<P>(
    g: &Grammar<P>,
    chart: Seq<StateSet>,
    rule: int,
    dot: int,
    origin: int,
    end: int,
    fuel: nat,
    cap: int,
) -> int
    decreases fuel, 1int, dot, chart[end]@.len() + 1,
{
    if cap <= 0 {
        0
    } else if dot <= 0 {
        if origin == end {
            1
        } else {
            0
        }
    } else {
        let sym = g.rules@[rule].body@[dot - 1] as int;
        if g.symbols@[sym] is Terminal {
            if end > origin && holds(chart[end - 1]@, dotted(rule, dot - 1, origin)) {
                count_kids(g, chart, rule, dot - 1, origin, end - 1, fuel, cap)
            } else {
                0
            }
        } else {
            count_choice(g, chart, rule, dot, origin, end, fuel, cap, 0, 0)
        }
    }
}

/// As `count_kids` for a nonterminal, with the items of column `end`
/// from index `j` on and `total` counted before them.
pub open spec fn count_choice<P>(
    g: &Grammar<P>,
    chart: Seq<StateSet>,
    rule: int,
    dot: int,
    origin: int,
    end: int,
    fuel: nat,
    cap: int,
    j: int,
    total: int,
) -> int
    decreases fuel, 1int, dot, chart[end]@.len() - j,
{
    if dot <= 0 || j < 0 || j >= chart[end]@.len() || total >= cap {
        total
    } else if candidate(g, chart, rule, dot, origin, end, j) {
        let cand = chart[end]@[j];
        let subs = count_node(g, chart, cand.rule as int, cand.origin as int, end, fuel, cap);
        if subs > 0 {
            let pres = count_kids(g, chart, rule, dot - 1, origin, cand.origin as int, fuel, cap);
            count_choice(
                g,
                chart,
                rule,
                dot,
                origin,
                end,
                fuel,
                cap,
                j + 1,
                capped_times(total, pres, subs, cap),
            )
        } else {
            count_choice(g, chart, rule, dot, origin, end, fuel, cap, j + 1, total)
        }
    } else {
        count_choice(g, chart, rule, dot, origin, end, fuel, cap, j + 1, total)
    }
}

/// What the search among the derivations of one item comes to: the
/// derivation sought, or none, or how many derivations are still to
/// pass over.
pub enum Pick {
    Found(Option<Seq<TreeView>>),
    Left(int),
}

/// Derivation number `k` of the whole body of `rule` between the
/// columns `origin` and `end`.
pub open spec fn nth_node<P>(
    g: &Grammar<P>,
    chart: Seq<StateSet>,
    rule: int,
    origin: int,
    end: int,
    fuel: nat,
    k: int,
) -> Option<TreeView>
    decreases fuel, 0int, 0int, 0int, 0int,
{
    if fuel == 0 {
        None
    } else {
        match nth_kids(
            g,
            chart,
            rule,
            g.rules@[rule].body@.len() as int,
            origin,
            end,
            (fuel - 1) as nat,
            k,
        ) {
            Some(kids) => Some(TreeView::Node { rule, origin, end, kids }),
            None => None,
        }
    }
}

/// Derivation number `k` of the first `dot` symbols of the body of
/// `rule` between the columns `origin` and `end`. The derivations are
/// numbered from 0: item by item of column `end`, for each derivation
/// of the item in turn, the derivations of the symbols before it.
pub open spec fn nth_kids<P>(
    g: &Grammar<P>,
    chart: Seq<StateSet>,
    rule: int,
    dot: int,
    origin: int,
    end: int,
    fuel: nat,
    k: int,
) -> Option<Seq<TreeView>>
    decreases fuel, 1int, dot, chart[end]@.len() + 1, 0int,
{
    if dot <= 0 {
        if origin == end && k == 0 {
            Some(Seq::empty())
        } else {
            None
        }
    } else {
        let sym = g.rules@[rule].body@[dot - 1] as int;
        if g.symbols@[sym] is Terminal {
            if end > origin && holds(chart[end - 1]@, dotted(rule, dot - 1, origin)) {
                match nth_kids(g, chart, rule, dot - 1, origin, end - 1, fuel, k) {
                    Some(kids) => Some(kids.push(TreeView::Leaf { symbol: sym, at: end - 1 })),
                    None => None,
                }
            } else {
                None
            }
        } else {
            nth_choice(g, chart, rule, dot, origin, end, fuel, cap_of(k), 0, k)
        }
    }
}

/// As `nth_kids` for a nonterminal, with the items of column `end` from
/// index `j` on and `left` derivations still to pass over.
pub open spec fn nth_choice<P>(
    g: &Grammar<P>,
    chart: Seq<StateSet>,
    rule: int,
    dot: int,
    origin: int,
    end: int,
    fuel: nat,
    cap: int,
    j: int,
    left: int,
) -> Option<Seq<TreeView>>
    decreases fuel, 1int, dot, chart[end]@.len() - j, chart.len() + 1,
{
    if dot <= 0 || j < 0 || j >= chart[end]@.len() {
        None
    } else if candidate(g, chart, rule, dot, origin, end, j) {
        let cand = chart[end]@[j];
        let subs = count_node(g, chart, cand.rule as int, cand.origin as int, end, fuel, cap);
        let pres = if subs > 0 {
            count_kids(g, chart, rule, dot - 1, origin, cand.origin as int, fuel, cap)
        } else {
            0
        };
        match nth_pick(g, chart, rule, dot, origin, end, fuel, j, subs, pres, 0, left) {
            Pick::Found(r) => r,
            Pick::Left(l) => nth_choice(g, chart, rule, dot, origin, end, fuel, cap, j + 1, l),
        }
    } else {
        nth_choice(g, chart, rule, dot, origin, end, fuel, cap, j + 1, left)
    }
}

/// The search among the derivations of item `j` of column `end`, which
/// has `subs` derivations, each with `pres` derivations of the symbols
/// before it, from its derivation number `s` on.
pub open spec fn nth_pick<P>(
    g: &Grammar<P>,
    chart: Seq<StateSet>,
    rule: int,
    dot: int,
    origin: int,
    end: int,
    fuel: nat,
    j: int,
    subs: int,
    pres: int,
    s: int,
    left: int,
) -> Pick
    decreases fuel, 1int, dot, chart[end]@.len() - j, 0int, subs - s,
{
    if dot <= 0 || !(s < subs && pres > 0) {
        Pick::Left(left)
    } else if left < pres {
        let cand = chart[end]@[j];
        match (
            nth_kids(g, chart, rule, dot - 1, origin, cand.origin as int, fuel, left),
            nth_node(g, chart, cand.rule as int, cand.origin as int, end, fuel, s),
        ) {
            (Some(kids), Some(sub)) => Pick::Found(Some(kids.push(sub))),
            _ => Pick::Found(None),
        }
    } else {
        nth_pick(g, chart, rule, dot, origin, end, fuel, j, subs, pres, s + 1, left - pres)
    }
}

/// Derivation number `left` of the input from the start symbol among
/// those of the items of the last column from index `j` on.
pub open spec fn nth_root<P>(
    g: &Grammar<P>,
    chart: Seq<StateSet>,
    fuel: nat,
    cap: int,
    j: int,
    left: int,
) -> Option<TreeView>
    decreases chart.last()@.len() - j,
{
    if chart.len() == 0 || j < 0 || j >= chart.last()@.len() {
        None
    } else {
        let cand = chart.last()@[j];
        if cand.dot == g.rules@[cand.rule as int].body@.len() && cand.origin == 0 && g.rules@[cand.rule as int].head
            == g.start {
            let n = count_node(g, chart, cand.rule as int, 0, chart.len() - 1, fuel, cap);
            if left < n {
                nth_node(g, chart, cand.rule as int, 0, chart.len() - 1, fuel, left)
            } else {
                nth_root(g, chart, fuel, cap, j + 1, left - n)
            }
        } else {
            nth_root(g, chart, fuel, cap, j + 1, left)
        }
    }
}

/// Derivation number `k`, counted from 0, that the chart shows of its
/// input from the start symbol, if it shows that many.
pub open spec fn nth_derivation<P>(g: &Grammar<P>, chart: Seq<StateSet>, k: int) -> Option<TreeView> {
    nth_root(g, chart, depth_limit(chart) as nat, cap_of(k), 0, k)
}

proof fn lemma_capped_times(total: int, each: int, n: int, cap: int)
    requires
        0 <= total,
        0 <= each,
        0 < cap,
    ensures
        capped_times(total, each, n, cap) > 0 <==> total > 0 || (each > 0 && n > 0),
        capped_times(total, each, n, cap) >= total,
    decreases n,
{
    if n > 0 && total < cap {
        lemma_capped_times(capped(total, each, cap), each, n - 1, cap);
    }
}

/// Counting and searching agree on whether a rule's body has a
/// derivation, and derivation number 0 is the first derivation.
proof fn lemma_first_is_nth_node<P>(
    g: &Grammar<P>,
    chart: Seq<StateSet>,
    rule: int,
    origin: int,
    end: int,
    fuel: nat,
    cap: int,
)
    requires
        0 < cap,
    ensures
        count_node(g, chart, rule, origin, end, fuel, cap) >= 0,
        count_node(g, chart, rule, origin, end, fuel, cap) > 0 <==> first_node(
            g,
            chart,
            rule,
            origin,
            end,
            fuel,
        ) is Some,
        nth_node(g, chart, rule, origin, end, fuel, 0) == first_node(g, chart, rule, origin, end, fuel),
    decreases fuel, 0int, 0int, 0int,
{
    if fuel > 0 {
        lemma_first_is_nth_kids(
            g,
            chart,
            rule,
            g.rules@[rule].body@.len() as int,
            origin,
            end,
            (fuel - 1) as nat,
            cap,
        );
    }
}

proof fn lemma_first_is_nth_kids<P>(
    g: &Grammar<P>,
    chart: Seq<StateSet>,
    rule: int,
    dot: int,
    origin: int,
    end: int,
    fuel: nat,
    cap: int,
)
    requires
        0 < cap,
    ensures
        count_kids(g, chart, rule, dot, origin, end, fuel, cap) >= 0,
        count_kids(g, chart, rule, dot, origin, end, fuel, cap) > 0 <==> first_kids(
            g,
            chart,
            rule,
            dot,
            origin,
            end,
            fuel,
        ) is Some,
        nth_kids(g, chart, rule, dot, origin, end, fuel, 0) == first_kids(
            g,
            chart,
            rule,
            dot,
            origin,
            end,
            fuel,
        ),
    decreases fuel, 1int, dot, chart[end]@.len() + 1,
{
    if dot > 0 {
        let sym = g.rules@[rule].body@[dot - 1] as int;
        if g.symbols@[sym] is Terminal {
            if end > origin && holds(chart[end - 1]@, dotted(rule, dot - 1, origin)) {
                lemma_first_is_nth_kids(g, chart, rule, dot - 1, origin, end - 1, fuel, cap);
            }
        } else {
            lemma_first_is_nth_choice(g, chart, rule, dot, origin, end, fuel, cap, 0, 0);
        }
    }
}

proof fn lemma_first_is_nth_choice<P>(
    g: &Grammar<P>,
    chart: Seq<StateSet>,
    rule: int,
    dot: int,
    origin: int,
    end: int,
    fuel: nat,
    cap: int,
    j: int,
    total: int,
)
    requires
        0 < cap,
        0 < dot,
        0 <= total,
    ensures
        count_choice(g, chart, rule, dot, origin, end, fuel, cap, j, total) >= total,
        count_choice(g, chart, rule, dot, origin, end, fuel, cap, j, total) > 0 <==> total > 0
            || first_choice(g, chart, rule, dot, origin, end, fuel, j) is Some,
        nth_choice(g, chart, rule, dot, origin, end, fuel, 1, j, 0) == first_choice(
            g,
            chart,
            rule,
            dot,
            origin,
            end,
            fuel,
            j,
        ),
    decreases fuel, 1int, dot, chart[end]@.len() - j,
{
    if 0 <= j < chart[end]@.len() {
        if candidate(g, chart, rule, dot, origin, end, j) {
            let cand = chart[end]@[j];
            lemma_first_is_nth_node(g, chart, cand.rule as int, cand.origin as int, end, fuel, cap);
            lemma_first_is_nth_node(g, chart, cand.rule as int, cand.origin as int, end, fuel, 1);
            lemma_first_is_nth_kids(g, chart, rule, dot - 1, origin, cand.origin as int, fuel, cap);
            lemma_first_is_nth_kids(g, chart, rule, dot - 1, origin, cand.origin as int, fuel, 1);
            let subs = count_node(g, chart, cand.rule as int, cand.origin as int, end, fuel, cap);
            let pres = count_kids(g, chart, rule, dot - 1, origin, cand.origin as int, fuel, cap);
            let one_sub = count_node(g, chart, cand.rule as int, cand.origin as int, end, fuel, 1);
            let one_pre = if one_sub > 0 {
                count_kids(g, chart, rule, dot - 1, origin, cand.origin as int, fuel, 1)
            } else {
                0
            };
            let pick = nth_pick(g, chart, rule, dot, origin, end, fuel, j, one_sub, one_pre, 0, 0);
            if one_sub > 0 && one_pre > 0 {
                assert(pick == Pick::Found(
                    Some(
                        first_kids(g, chart, rule, dot - 1, origin, cand.origin as int, fuel)->0.push(
                            first_node(g, chart, cand.rule as int, cand.origin as int, end, fuel)->0,
                        ),
                    ),
                ));
            } else {
                assert(pick == Pick::Left(0));
            }
            if subs > 0 {
                lemma_capped_times(total, pres, subs, cap);
                lemma_first_is_nth_choice(
                    g,
                    chart,
                    rule,
                    dot,
                    origin,
                    end,
                    fuel,
                    cap,
                    j + 1,
                    capped_times(total, pres, subs, cap),
                );
            }
        }
        lemma_first_is_nth_choice(g, chart, rule, dot, origin, end, fuel, cap, j + 1, total);
        lemma_first_is_nth_choice(g, chart, rule, dot, origin, end, fuel, cap, j + 1, 0);
    }
}

proof fn lemma_first_is_nth_root<P>(g: &Grammar<P>, chart: Seq<StateSet>, fuel: nat, j: int)
    ensures
        nth_root(g, chart, fuel, 1, j, 0) == first_root(g, chart, fuel, j),
    decreases chart.last()@.len() - j,
{
    if chart.len() > 0 && 0 <= j < chart.last()@.len() {
        let cand = chart.last()@[j];
        lemma_first_is_nth_node(g, chart, cand.rule as int, 0, chart.len() - 1, fuel, 1);
        lemma_first_is_nth_root(g, chart, fuel, j + 1);
    }
}

/// Derivation number 0 is the first derivation.
pub proof fn lemma_first_is_nth<P>(g: &Grammar<P>, chart: Seq<StateSet>)
    ensures
        nth_derivation(g, chart, 0) == first_tree(g, chart),
{
    lemma_first_is_nth_root(g, chart, depth_limit(chart) as nat, 0);
}

fn tally_kids<P>(
    g: &Grammar<P>,
    chart: &Vec<StateSet>,
    rule: usize,
    dot: usize,
    origin: usize,
    end: usize,
    fuel: usize,
    cap: usize,
) -> (n: usize)
    requires
        searchable(g, chart@, rule as int, dot as int, origin as int, end as int),
    ensures
        n <= cap,
        n == count_kids(
            g,
            chart@,
            rule as int,
            dot as int,
            origin as int,
            end as int,
            fuel as nat,
            cap as int,
        ),
    decreases fuel, 1int, dot,
{
    if cap == 0 {
        return 0;
    }
    if dot == 0 {
        return if origin == end {
            1
        } else {
            0
        };
    }
    let sym = g.rules[rule].body[dot - 1];
    if g.symbols[sym].is_terminal() {
        if end > origin && item_at(chart, end - 1, rule, dot - 1, origin) {
            return tally_kids(g, chart, rule, dot - 1, origin, end - 1, fuel, cap);
        }
        return 0;
    }
    let mut total: usize = 0;
    let mut j: usize = 0;
    assert(chart@[end as int].wf() && valid_column(g, chart@[end as int]@, end as int));
    while j < chart[end].len() && total < cap
        invariant
            searchable(g, chart@, rule as int, dot as int, origin as int, end as int),
            dot > 0,
            cap > 0,
            j <= chart@[end as int]@.len(),
            total <= cap,
            sym == g.rules@[rule as int].body@[dot - 1],
            g.symbols@[sym as int] is Nonterminal,
            valid_column(g, chart@[end as int]@, end as int),
            count_choice(
                g,
                chart@,
                rule as int,
                dot as int,
                origin as int,
                end as int,
                fuel as nat,
                cap as int,
                j as int,
                total as int,
            ) == count_kids(
                g,
                chart@,
                rule as int,
                dot as int,
                origin as int,
                end as int,
                fuel as nat,
                cap as int,
            ),
        decreases chart@[end as int]@.len() - j,
    {
        let cand = chart[end].get(j);
        assert(valid_item(g, cand, end as int));
        if cand.dot == g.rules[cand.rule].body.len() && g.rules[cand.rule].head == sym
            && cand.origin >= origin && item_at(chart, cand.origin, rule, dot - 1, origin) {
            let subs = tally_node(g, chart, cand.rule, cand.origin, end, fuel, cap);
            if subs > 0 {
                let pres = tally_kids(g, chart, rule, dot - 1, origin, cand.origin, fuel, cap);
                let ghost before = total as int;
                let mut s: usize = 0;
                while s < subs && total < cap
                    invariant
                        total <= cap,
                        s <= subs,
                        capped_times(total as int, pres as int, subs - s, cap as int) == capped_times(
                            before,
                            pres as int,
                            subs as int,
                            cap as int,
                        ),
                    decreases subs - s,
                {
                    total = capped_sum(total, pres, cap);
                    s += 1;
                }
            }
        }
        j += 1;
    }
    total
}

fn tally_node<P>(
    g: &Grammar<P>,
    chart: &Vec<StateSet>,
    rule: usize,
    origin: usize,
    end: usize,
    fuel: usize,
    cap: usize,
) -> (n: usize)
    requires
        searchable(g, chart@, rule as int, 0, origin as int, end as int),
    ensures
        n <= cap,
        n == count_node(g, chart@, rule as int, origin as int, end as int, fuel as nat, cap as int),
    decreases fuel, 0int, 0nat,
{
    if fuel == 0 {
        return 0;
    }
    tally_kids(g, chart, rule, g.rules[rule].body.len(), origin, end, fuel - 1, cap)
}

fn fetch_kids<P>(
    g: &Grammar<P>,
    chart: &Vec<StateSet>,
    rule: usize,
    dot: usize,
    origin: usize,
    end: usize,
    fuel: usize,
    k: usize,
) -> (r: Option<Vec<Tree>>)
    requires
        searchable(g, chart@, rule as int, dot as int, origin as int, end as int),
        dot > 0 ==> holds(chart@[end as int]@, dotted(rule as int, dot as int, origin as int)),
    ensures
        r matches Some(kids) ==> kids@.len() == dot && kids_derive(
            g,
            chart@,
            kids@,
            rule as int,
            origin as int,
            end as int,
        ),
        match nth_kids(
            g,
            chart@,
            rule as int,
            dot as int,
            origin as int,
            end as int,
            fuel as nat,
            k as int,
        ) {
            Some(found) => r matches Some(kids) && shapes(kids@) == found,
            None => r is None,
        },
    decreases fuel, 1int, dot,
{
    if dot == 0 {
        if origin == end && k == 0 {
            let kids: Vec<Tree> = Vec::new();
            assert(shapes(kids@) =~= Seq::<TreeView>::empty());
            return Some(kids);
        }
        return None;
    }
    let cap: usize = if k < usize::MAX {
        k + 1
    } else {
        k
    };
    let sym = g.rules[rule].body[dot - 1];
    if g.symbols[sym].is_terminal() {
        if end > origin && item_at(chart, end - 1, rule, dot - 1, origin) {
            match fetch_kids(g, chart, rule, dot - 1, origin, end - 1, fuel, k) {
                Some(pre) => {
                    let mut kids = pre;
                    let leaf = Tree::Leaf { symbol: sym, at: end - 1 };
                    proof {
                        assert(root_fits(g, chart@, leaf));
                        lemma_kids_push(g, chart@, kids@, leaf, rule as int, origin as int, end as int);
                        lemma_shapes_push(kids@, leaf);
                    }
                    kids.push(leaf);
                    return Some(kids);
                },
                None => {
                    return None;
                },
            }
        }
        return None;
    }
    let ghost goal = nth_kids(
        g,
        chart@,
        rule as int,
        dot as int,
        origin as int,
        end as int,
        fuel as nat,
        k as int,
    );
    let mut left: usize = k;
    let mut j: usize = 0;
    assert(chart@[end as int].wf() && valid_column(g, chart@[end as int]@, end as int));
    while j < chart[end].len()
        invariant
            searchable(g, chart@, rule as int, dot as int, origin as int, end as int),
            dot > 0,
            j <= chart@[end as int]@.len(),
            cap == cap_of(k as int),
            goal == nth_kids(
                g,
                chart@,
                rule as int,
                dot as int,
                origin as int,
                end as int,
                fuel as nat,
                k as int,
            ),
            sym == g.rules@[rule as int].body@[dot - 1],
            g.symbols@[sym as int] is Nonterminal,
            holds(chart@[end as int]@, dotted(rule as int, dot as int, origin as int)),
            valid_column(g, chart@[end as int]@, end as int),
            nth_choice(
                g,
                chart@,
                rule as int,
                dot as int,
                origin as int,
                end as int,
                fuel as nat,
                cap as int,
                j as int,
                left as int,
            ) == goal,
        decreases chart@[end as int]@.len() - j,
    {
        let cand = chart[end].get(j);
        assert(valid_item(g, cand, end as int));
        if cand.dot == g.rules[cand.rule].body.len() && g.rules[cand.rule].head == sym
            && cand.origin >= origin && item_at(chart, cand.origin, rule, dot - 1, origin) {
            let subs = tally_node(g, chart, cand.rule, cand.origin, end, fuel, cap);
            let pres = if subs > 0 {
                tally_kids(g, chart, rule, dot - 1, origin, cand.origin, fuel, cap)
            } else {
                0
            };
            let ghost after = nth_pick(
                g,
                chart@,
                rule as int,
                dot as int,
                origin as int,
                end as int,
                fuel as nat,
                j as int,
                subs as int,
                pres as int,
                0,
                left as int,
            );
            let mut s: usize = 0;
            while s < subs && pres > 0
                invariant
                    searchable(g, chart@, rule as int, dot as int, origin as int, end as int),
                    dot > 0,
                    s <= subs,
                    goal == nth_kids(
                        g,
                        chart@,
                        rule as int,
                        dot as int,
                        origin as int,
                        end as int,
                        fuel as nat,
                        k as int,
                    ),
                    j < chart@[end as int]@.len(),
                    cand == chart@[end as int]@[j as int],
                    valid_item(g, cand, end as int),
                    cand.dot == g.rules@[cand.rule as int].body@.len(),
                    g.rules@[cand.rule as int].head == sym,
                    cand.origin >= origin,
                    holds(
                        chart@[cand.origin as int]@,
                        dotted(rule as int, dot - 1, origin as int),
                    ),
                    sym == g.rules@[rule as int].body@[dot - 1],
                    holds(chart@[end as int]@, dotted(rule as int, dot as int, origin as int)),
                    goal == (match after {
                        Pick::Found(r) => r,
                        Pick::Left(l) => nth_choice(
                            g,
                            chart@,
                            rule as int,
                            dot as int,
                            origin as int,
                            end as int,
                            fuel as nat,
                            cap as int,
                            j + 1,
                            l,
                        ),
                    }),
                    nth_pick(
                        g,
                        chart@,
                        rule as int,
                        dot as int,
                        origin as int,
                        end as int,
                        fuel as nat,
                        j as int,
                        subs as int,
                        pres as int,
                        s as int,
                        left as int,
                    ) == after,
                decreases subs - s,
            {
                if left < pres {
                    proof {
                        assert(chart@[end as int]@[j as int].key() == dotted(
                            cand.rule as int,
                            cand.dot as int,
                            cand.origin as int,
                        ).key());
                    }
                    let sub = fetch_node(g, chart, cand.rule, cand.origin, end, fuel, s);
                    let pre = fetch_kids(g, chart, rule, dot - 1, origin, cand.origin, fuel, left);
                    match (pre, sub) {
                        (Some(pre), Some(sub)) => {
                            let mut kids = pre;
                            proof {
                                lemma_kids_push(
                                    g,
                                    chart@,
                                    kids@,
                                    sub,
                                    rule as int,
                                    origin as int,
                                    end as int,
                                );
                                lemma_shapes_push(kids@, sub);
                            }
                            kids.push(sub);
                            return Some(kids);
                        },
                        _ => {
                            return None;
                        },
                    }
                }
                left = left - pres;
                s += 1;
            }
        }
        j += 1;
    }
    None
}

fn fetch_node<P>(
    g: &Grammar<P>,
    chart: &Vec<StateSet>,
    rule: usize,
    origin: usize,
    end: usize,
    fuel: usize,
    k: usize,
) -> (r: Option<Tree>)
    requires
        searchable(g, chart@, rule as int, 0, origin as int, end as int),
        holds(
            chart@[end as int]@,
            dotted(rule as int, g.rules@[rule as int].body@.len() as int, origin as int),
        ),
    ensures
        r matches Some(t) ==> derivation(g, chart@, t) && t == (Tree::Node {
            rule,
            origin,
            end,
            kids: t->kids,
        }),
        shape_of(r) == nth_node(
            g,
            chart@,
            rule as int,
            origin as int,
            end as int,
            fuel as nat,
            k as int,
        ),
    decreases fuel, 0int, 0nat,
{
    if fuel == 0 {
        return None;
    }
    match fetch_kids(g, chart, rule, g.rules[rule].body.len(), origin, end, fuel - 1, k) {
        Some(kids) => {
            let t = Tree::Node { rule, origin, end, kids };
            proof {
                assert(root_fits(g, chart@, t));
                lemma_shape_node(t);
            }
            Some(t)
        },
        None => None,
    }
}

/// Derivation number `k` of the input from the start symbol, counted
/// from 0, if the chart shows that many.
pub fn nth_tree<P>(g: &Grammar<P>, ps: &ParseState, k: usize) -> (r: Option<Tree>)
    requires
        g.wf(),
        valid_chart(g, ps.states@),
    ensures
        r matches Some(t) ==> parses(g, ps.states@, t),
        shape_of(r) == nth_derivation(g, ps.states@, k as int),
{
    let chart = &ps.states;
    if chart.len() == 0 {
        return None;
    }
    let end = chart.len() - 1;
    let fuel = budget(chart);
    let cap: usize = if k < usize::MAX {
        k + 1
    } else {
        k
    };
    let mut left: usize = k;
    let mut j: usize = 0;
    assert(chart@[end as int].wf() && valid_column(g, chart@[end as int]@, end as int));
    while j < chart[end].len()
        invariant
            g.wf(),
            chart == &ps.states,
            valid_chart(g, chart@),
            end == chart@.len() - 1,
            j <= chart@[end as int]@.len(),
            fuel == depth_limit(chart@),
            cap == cap_of(k as int),
            valid_column(g, chart@[end as int]@, end as int),
            nth_root(g, chart@, fuel as nat, cap as int, j as int, left as int) == nth_derivation(
                g,
                chart@,
                k as int,
            ),
        decreases chart@[end as int]@.len() - j,
    {
        let cand = chart[end].get(j);
        assert(valid_item(g, cand, end as int));
        if cand.dot == g.rules[cand.rule].body.len() && cand.origin == 0 && g.rules[cand.rule].head
            == g.start {
            let n = tally_node(g, chart, cand.rule, 0, end, fuel, cap);
            if left < n {
                proof {
                    assert(chart@[end as int]@[j as int].key() == dotted(
                        cand.rule as int,
                        cand.dot as int,
                        0,
                    ).key());
                }
                return fetch_node(g, chart, cand.rule, 0, end, fuel, left);
            }
            left = left - n;
        }
        j += 1;
    }
    None
}

/// The first derivation of the input from the start symbol: at each
/// symbol of a body, from the last to the first, the first complete
/// item of the column that fits and has a derivation.
pub fn build_tree<P>(g: &Grammar<P>, ps: &ParseState) -> (r: Option<Tree>)
    requires
        g.wf(),
        valid_chart(g, ps.states@),
    ensures
        r matches Some(t) ==> parses(g, ps.states@, t),
        shape_of(r) == first_tree(g, ps.states@),
{
    let chart = &ps.states;
    if chart.len() == 0 {
        return None;
    }
    let end = chart.len() - 1;
    let fuel = budget(chart);
    let mut j: usize = 0;
    assert(chart@[end as int].wf() && valid_column(g, chart@[end as int]@, end as int));
    while j < chart[end].len()
        invariant
            g.wf(),
            chart == &ps.states,
            valid_chart(g, chart@),
            end == chart@.len() - 1,
            j <= chart@[end as int]@.len(),
            fuel == depth_limit(chart@),
            valid_column(g, chart@[end as int]@, end as int),
            first_root(g, chart@, fuel as nat, j as int) == first_tree(g, chart@),
        decreases chart@[end as int]@.len() - j,
    {
        let cand = chart[end].get(j);
        assert(valid_item(g, cand, end as int));
        if cand.dot == g.rules[cand.rule].body.len() && cand.origin == 0 && g.rules[cand.rule].head
            == g.start {
            proof {
                assert(chart@[end as int]@[j as int].key() == dotted(
                    cand.rule as int,
                    cand.dot as int,
                    0,
                ).key());
            }
            match search_node(g, chart, cand.rule, 0, end, fuel) {
                Some(t) => {
                    return Some(t);
                },
                None => {},
            }
        }
        j += 1;
    }
    None
}

} // verus!
