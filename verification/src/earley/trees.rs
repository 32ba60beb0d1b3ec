use vstd::prelude::*;
use crate::earley::grammar::Grammar;
use crate::earley::parser::{valid_chart, ParseState};
use crate::earley::tree1::{
    first_tree, lemma_first_is_nth, nth_derivation, nth_tree, parses, shape, shape_of, Tree,
};
use crate::earley::types::StateSet;

verus! {

/// Whether `trees` are the derivations that the chart shows of its
/// input, in order and up to `limit` of them: derivation number 0, 1
/// and so on, up to the first number that the chart does not show.
pub open spec fn enumerates<P>(
    g: &Grammar<P>,
    chart: Seq<StateSet>,
    trees: Seq<Tree>,
    limit: int,
) -> bool {
    &&& trees.len() <= limit
    &&& forall|i: int|
        0 <= i < trees.len() ==> Some(shape(#[trigger] trees[i])) == nth_derivation(g, chart, i)
    &&& trees.len() < limit ==> nth_derivation(g, chart, trees.len() as int) is None
}

/// The derivations of the input from the start symbol, in order, up to
/// `limit` of them: first the one that `build_tree` gives, then those
/// that another choice at some symbol gives.
pub fn build_trees<P>(g: &Grammar<P>, ps: &ParseState, limit: usize) -> (trees: Vec<Tree>)
    requires
        g.wf(),
        valid_chart(g, ps.states@),
    ensures
        enumerates(g, ps.states@, trees@, limit as int),
        forall|i: int| 0 <= i < trees@.len() ==> parses(g, ps.states@, #[trigger] trees@[i]),
{
    let mut trees: Vec<Tree> = Vec::new();
    let mut k: usize = 0;
    while k < limit
        invariant
            k <= limit,
            trees@.len() == k,
            g.wf(),
            valid_chart(g, ps.states@),
            forall|i: int| 0 <= i < trees@.len() ==> parses(g, ps.states@, #[trigger] trees@[i]),
            forall|i: int|
                0 <= i < trees@.len() ==> Some(shape(#[trigger] trees@[i])) == nth_derivation(
                    g,
                    ps.states@,
                    i,
                ),
        decreases limit - k,
    {
        match nth_tree(g, ps, k) {
            Some(t) => {
                trees.push(t);
            },
            None => {
                return trees;
            },
        }
        k += 1;
    }
    trees
}

/// The first of all derivations is the one derivation: where
/// `build_trees`, asked for one tree or more, gives a tree at all,
/// `build_tree` gives its first; where it gives none, neither does
/// `build_tree`.
pub proof fn lemma_first_of_all<P>(
    g: &Grammar<P>,
    chart: Seq<StateSet>,
    one: Option<Tree>,
    all: Seq<Tree>,
    limit: int,
)
    requires
        limit > 0,
        shape_of(one) == first_tree(g, chart),
        enumerates(g, chart, all, limit),
    ensures
        all.len() > 0 ==> (one matches Some(t) && shape(t) == shape(all[0])),
        all.len() == 0 ==> one is None,
{
    lemma_first_is_nth(g, chart);
}

} // verus!
