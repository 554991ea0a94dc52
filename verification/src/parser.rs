//! Parsing: the chart is built, a completed item for the start symbol that
//! spans the whole input is looked for, and its derivation tree reconstructed.

use crate::correctness::{dotted, lemma_along, lemma_forest};
use crate::earley::{is_complete, Item, StateSet};
use crate::engine::build_chart;
use crate::forest::{build_tree, forest, tree, ParseNode};
use crate::grammar::{
    derivable, frontier, is_derivation, roots, start_symbol, texts_of, Grammar, Rule, Tree,
};
use crate::machine::{
    admissible, earley_chart, initial, lemma_insert_all, lemma_predictions_complete, predictions,
};
use crate::progress::{lemma_chart_settled, lemma_extends_contains};
use crate::term::{Symbol, Term};
use vstd::prelude::*;

verus! {

/// Why a parse yields no tree.
#[derive(Clone, Copy, Debug, PartialEq, Eq)]
pub enum ParseError {
    /// The grammar has no productions.
    EmptyGrammar,
    /// The tokens are not in the grammar's language.
    Rejected,
    /// A chart holds an item whose derivation cannot be found in it.
    InternalInconsistency,
}

/// Whether an item is a completed item for `start` that began at column `0`.
pub open spec fn is_root(start: Symbol, it: Item) -> bool {
    is_complete(it) && it.lhs == start && it.origin == 0
}

/// The least index from `from` on at which the column holds a root for `start`.
pub open spec fn first_root(col: Seq<Item>, start: Symbol, from: int) -> Option<int>
    decreases col.len() - from,
{
    if from < 0 || from >= col.len() {
        None
    } else if is_root(start, col[from]) {
        Some(from)
    } else {
        first_root(col, start, from + 1)
    }
}

/// Whether the chart of `g` over `w` holds, in its last column, a completed
/// item for the start symbol that began at column `0`.
pub open spec fn accepted(g: Seq<Rule>, w: Seq<Seq<char>>) -> bool {
    &&& g.len() > 0
    &&& exists|x: int|
        0 <= x < earley_chart(g, w)[w.len() as int].len() && is_root(
            start_symbol(g),
            #[trigger] earley_chart(g, w)[w.len() as int][x],
        )
}

/// What parsing the token texts `w` with the grammar `g` yields: the tree of
/// the first root in the last column of the chart.
pub open spec fn parse_result(g: Seq<Rule>, w: Seq<Seq<char>>) -> Result<Tree, ParseError> {
    if g.len() == 0 {
        Err(ParseError::EmptyGrammar)
    } else {
        let chart = earley_chart(g, w);
        let n = w.len() as int;
        match first_root(chart[n], start_symbol(g), 0) {
            None => Err(ParseError::Rejected),
            Some(x) => match tree(chart, n, x) {
                Some(t) => Ok(t),
                None => Err(ParseError::InternalInconsistency),
            },
        }
    }
}

/// What a result of [`parse`] is in contracts.
pub open spec fn outcome(r: Result<ParseNode, ParseError>) -> Result<Tree, ParseError> {
    match r {
        Ok(node) => Ok(node@),
        Err(e) => Err(e),
    }
}

/// The first root from `from` on is a root, and no item between `from` and it is one.
pub proof fn lemma_first_root(col: Seq<Item>, start: Symbol, from: int)
    requires
        0 <= from,
    ensures
        match first_root(col, start, from) {
            Some(x) => from <= x < col.len() && is_root(start, col[x]) && forall|y: int|
                from <= y < x ==> !is_root(start, col[y]),
            None => forall|y: int| from <= y < col.len() ==> !is_root(start, col[y]),
        },
    decreases col.len() - from,
{
    if from < col.len() && !is_root(start, col[from]) {
        lemma_first_root(col, start, from + 1);
    }
}

/// The tree of a root in the last column of the chart is a derivation of the
/// tokens from the start symbol.
pub proof fn lemma_root_tree(g: Seq<Rule>, w: Seq<Seq<char>>, x: int)
    requires
        g.len() > 0,
        0 <= x < earley_chart(g, w)[w.len() as int].len(),
        is_root(start_symbol(g), earley_chart(g, w)[w.len() as int][x]),
    ensures
        tree(earley_chart(g, w), w.len() as int, x) is Some,
        is_derivation(g, tree(earley_chart(g, w), w.len() as int, x).unwrap()),
        tree(earley_chart(g, w), w.len() as int, x).unwrap().term == start_symbol(g),
        start_symbol(g) is Nonterminal,
        frontier(tree(earley_chart(g, w), w.len() as int, x).unwrap()) == w,
{
    let chart = earley_chart(g, w);
    let n = w.len() as int;
    let it = chart[n][x];
    lemma_chart_settled(g, w);
    lemma_forest(g, w, chart, n, x);
    assert(admissible(g, it, n as nat));
    let f = forest(chart, n, x).unwrap();
    assert(it.symbols.take(it.dot as int) =~= it.symbols);
    assert(w.subrange(0, n) =~= w);
}

/// Recognition is exact: the chart holds a root in its last column if and
/// only if the tokens can be derived from the start symbol.
pub proof fn lemma_recognition(g: Seq<Rule>, w: Seq<Seq<char>>)
    ensures
        accepted(g, w) <==> derivable(g, w),
{
    if g.len() > 0 {
        let chart = earley_chart(g, w);
        let n = w.len() as int;
        let start = start_symbol(g);
        lemma_chart_settled(g, w);
        if accepted(g, w) {
            let x = choose|x: int| 0 <= x < chart[n].len() && is_root(start, #[trigger] chart[n][x]);
            lemma_root_tree(g, w, x);
            assert(is_derivation(g, tree(chart, n, x).unwrap()));
        }
        if derivable(g, w) {
            let t = choose|t: Tree| #[trigger]
                is_derivation(g, t) && t.term == start && t.term is Nonterminal && frontier(t) == w;
            let (p, a) = choose|p: int, a: int|
                0 <= p < g.len() && 0 <= a < g[p].alternatives.len() && g[p].lhs == t.term
                    && #[trigger] g[p].alternatives[a] == roots(t.children);
            lemma_predictions_complete(g, start, 0, p, a);
            let body = roots(t.children);
            let fresh = dotted(start, body, 0, 0);
            let offered = predictions(g, start, 0);
            let z = choose|z: int| 0 <= z < offered.len() && offered[z] == fresh;
            lemma_insert_all(Seq::empty(), offered);
            assert(initial(g, w)[0].contains(offered[z]));
            lemma_extends_contains(initial(g, w), chart, 0, fresh);
            let len = t.children.len() as int;
            assert(w.subrange(0, n) =~= w);
            assert(t.children.take(len) =~= t.children);
            assert(body.take(len) =~= body);
            lemma_along(g, w, chart, 0, start, body, t.children, len);
            let done = dotted(start, body, len, 0);
            let x = choose|x: int| 0 <= x < chart[n].len() && chart[n][x] == done;
            assert(is_root(start, chart[n][x]));
        }
    }
}

/// Soundness: a tree that parsing yields is a derivation of the grammar from
/// its start symbol, and its terminal leaves, read from left to right, are
/// the tokens.
pub proof fn lemma_parse_sound(g: Seq<Rule>, w: Seq<Seq<char>>)
    ensures
        parse_result(g, w) matches Ok(t) ==> is_derivation(g, t) && t.term == start_symbol(g)
            && frontier(t) == w && derivable(g, w),
{
    if g.len() > 0 {
        let col = earley_chart(g, w)[w.len() as int];
        lemma_first_root(col, start_symbol(g), 0);
        if first_root(col, start_symbol(g), 0) is Some {
            let x = first_root(col, start_symbol(g), 0).unwrap();
            lemma_root_tree(g, w, x);
            assert(is_derivation(g, tree(earley_chart(g, w), w.len() as int, x).unwrap()));
        }
    }
}

/// Completeness: tokens that can be derived from the start symbol are parsed
/// into a tree. They are never rejected, and no inconsistency is reported.
pub proof fn lemma_parse_complete(g: Seq<Rule>, w: Seq<Seq<char>>)
    requires
        derivable(g, w),
    ensures
        parse_result(g, w) is Ok,
{
    let col = earley_chart(g, w)[w.len() as int];
    lemma_recognition(g, w);
    lemma_first_root(col, start_symbol(g), 0);
    let x = first_root(col, start_symbol(g), 0).unwrap();
    lemma_root_tree(g, w, x);
}

/// Rejection correctness: with a grammar that has productions, tokens that
/// cannot be derived from the start symbol are rejected. They yield neither a
/// tree nor a report of inconsistency.
pub proof fn lemma_parse_rejects(g: Seq<Rule>, w: Seq<Seq<char>>)
    requires
        g.len() > 0,
        !derivable(g, w),
    ensures
        parse_result(g, w) == Err::<Tree, ParseError>(ParseError::Rejected),
{
    let col = earley_chart(g, w)[w.len() as int];
    lemma_recognition(g, w);
    lemma_first_root(col, start_symbol(g), 0);
}

/// Determinism: two results that `parse` may give for the same grammar and
/// tokens are both errors of the same kind, or both trees of the same shape.
pub proof fn lemma_parse_deterministic(
    g: Seq<Rule>,
    w: Seq<Seq<char>>,
    first: Result<ParseNode, ParseError>,
    second: Result<ParseNode, ParseError>,
)
    requires
        outcome(first) == parse_result(g, w),
        outcome(second) == parse_result(g, w),
    ensures
        first matches Ok(a) ==> (second matches Ok(b) && a@ == b@),
        first matches Err(e) ==> (second matches Err(f) && e == f),
{
}

/// The index of the first completed item for `start` that began at column `0`.
pub fn find_root(set: &StateSet, start: &Term) -> (r: Option<usize>)
    ensures
        match r {
            Some(x) => first_root(set@, start@, 0) == Some(x as int),
            None => first_root(set@, start@, 0) is None,
        },
{
    let mut x: usize = 0;
    while x < set.state.len()
        invariant
            x <= set.state.len(),
            first_root(set@, start@, 0) == first_root(set@, start@, x as int),
        decreases set.state.len() - x,
    {
        let s = &set.state[x];
        if s.is_complete() && s.position.origin == 0 && s.lhs == *start {
            return Some(x);
        }
        x += 1;
    }
    None
}

/// Parses `tokens` with `grammar`. A grammar without productions gives
/// `EmptyGrammar`. Otherwise the result is a tree if and only if the tokens
/// can be derived from the start symbol, and `Rejected` if they cannot; the
/// chart that `parse` builds is never found inconsistent. The tree is the
/// derivation that [`parse_result`] reads off the chart: where the tokens
/// have several derivations, each nonterminal is explained by the completed
/// item that came first into its column.
pub fn parse(grammar: &Grammar, tokens: &Vec<String>) -> (r: Result<ParseNode, ParseError>)
    requires
        tokens.len() < usize::MAX,
    ensures
        outcome(r) == parse_result(grammar@, texts_of(tokens@)),
        grammar@.len() == 0 ==> (r matches Err(e) && e == ParseError::EmptyGrammar),
        grammar@.len() > 0 ==> (r is Ok <==> derivable(grammar@, texts_of(tokens@))),
        !(r matches Err(e) && e == ParseError::InternalInconsistency),
        grammar@.len() > 0 && !derivable(grammar@, texts_of(tokens@)) ==> (r matches Err(e) && e
            == ParseError::Rejected),
        r matches Ok(node) ==> is_derivation(grammar@, node@) && node@.term == start_symbol(
            grammar@,
        ) && frontier(node@) == texts_of(tokens@),
{
    let ghost g = grammar@;
    let ghost w = texts_of(tokens@);
    if grammar.productions.len() == 0 {
        return Err(ParseError::EmptyGrammar);
    }
    let chart = build_chart(grammar, tokens);
    proof {
        lemma_chart_settled(g, w);
        lemma_parse_sound(g, w);
        if derivable(g, w) {
            lemma_parse_complete(g, w);
        } else {
            lemma_parse_rejects(g, w);
        }
    }
    let n = tokens.len();
    match find_root(&chart.sets[n], &grammar.productions[0].lhs) {
        None => Err(ParseError::Rejected),
        Some(x) => build_tree(&chart, n, x),
    }
}

} // verus!
