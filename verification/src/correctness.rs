//! The chart against the grammar's derivations: what the forest builder reads
//! off a settled chart is a derivation of the tokens, and every derivation
//! of the tokens has its items in the chart.

use crate::earley::{advance, next_symbol, retreat, Item};
use crate::forest::{first_explaining, forest, last_symbol, lemma_first_explaining};
use crate::grammar::{
    are_derivations, derives, frontier, frontier_of, is_derivation, roots, Rule, Tree,
};
use crate::machine::{
    admissible, earley_chart, initial, lemma_insert_all, lemma_predictions_complete, predictions,
    well_formed,
};
use crate::progress::{
    all_justified, called, calls, closed_upto, completed_pair, justified,
    lemma_chart_settled, lemma_extends_contains, predicted, scan_done, settled, valid,
};
use crate::term::Symbol;
use vstd::prelude::*;

verus! {

/// In a chart that is well formed and has every item accounted for, the
/// forest of an item exists, has the symbols before the item's dot at its
/// roots, consists of derivations of the grammar, and has as its frontier the
/// tokens from the item's origin to its column.
pub proof fn lemma_forest(g: Seq<Rule>, w: Seq<Seq<char>>, chart: Seq<Seq<Item>>, e: int, x: int)
    requires
        well_formed(g, w, chart),
        all_justified(chart, w),
        0 <= e < chart.len(),
        0 <= x < chart[e].len(),
    ensures
        forest(chart, e, x) is Some,
        roots(forest(chart, e, x).unwrap()) == chart[e][x].symbols.take(chart[e][x].dot as int),
        are_derivations(g, forest(chart, e, x).unwrap()),
        chart[e][x].origin <= e,
        frontier_of(forest(chart, e, x).unwrap()) == w.subrange(chart[e][x].origin as int, e),
    decreases e, x,
{
    let it = chart[e][x];
    let o = it.origin as int;
    assert(justified(chart, w, e, x));
    assert(admissible(g, it, e as nat));
    if it.dot == 0 {
        assert(roots(Seq::<Tree>::empty()) =~= it.symbols.take(0));
        assert(frontier_of(Seq::<Tree>::empty()) =~= w.subrange(e, e));
    } else {
        match last_symbol(it) {
            None => {},
            Some(Symbol::Terminal(text)) => {
                let prev = chart[e - 1];
                prev.index_of_first_ensures(retreat(it));
                let p = prev.index_of_first(retreat(it)).unwrap();
                lemma_forest(g, w, chart, e - 1, p);
                let rest = forest(chart, e - 1, p).unwrap();
                let leaf = Tree { term: Symbol::Terminal(text), children: Seq::empty() };
                let f = rest.push(leaf);
                assert(forest(chart, e, x) == Some(f));
                assert(prev[p] == retreat(it));
                assert(roots(rest).len() == it.dot - 1);
                assert forall|i: int| 0 <= i < f.len() implies roots(f)[i] == it.symbols[i] by {
                    if i < rest.len() {
                        assert(roots(rest)[i] == rest[i].term);
                        assert(it.symbols.take(it.dot - 1)[i] == it.symbols[i]);
                    }
                }
                assert(roots(f) =~= it.symbols.take(it.dot as int));
                assert(f.drop_last() =~= rest);
                assert(frontier(leaf) =~= seq![text]);
                assert(frontier_of(f) =~= w.subrange(o, e));
                assert(is_derivation(g, leaf));
            },
            Some(Symbol::Nonterminal(name)) => {
                lemma_first_explaining(chart, e, x, 0);
                let c = first_explaining(chart, e, x, 0).unwrap();
                let done = chart[e][c];
                let m = done.origin as int;
                chart[m].index_of_first_ensures(retreat(it));
                let p = chart[m].index_of_first(retreat(it)).unwrap();
                lemma_forest(g, w, chart, m, p);
                lemma_forest(g, w, chart, e, c);
                let rest = forest(chart, m, p).unwrap();
                let below = forest(chart, e, c).unwrap();
                let node = Tree { term: Symbol::Nonterminal(name), children: below };
                let f = rest.push(node);
                assert(forest(chart, e, x) == Some(f));
                assert(admissible(g, done, e as nat));
                assert(done.symbols.take(done.dot as int) =~= done.symbols);
                assert(is_derivation(g, node));
                assert(chart[m][p] == retreat(it));
                assert(roots(rest).len() == it.dot - 1);
                assert forall|i: int| 0 <= i < f.len() implies roots(f)[i] == it.symbols[i] by {
                    if i < rest.len() {
                        assert(roots(rest)[i] == rest[i].term);
                        assert(it.symbols.take(it.dot - 1)[i] == it.symbols[i]);
                    }
                }
                assert(roots(f) =~= it.symbols.take(it.dot as int));
                assert(f.drop_last() =~= rest);
                assert(frontier(node) == frontier_of(below));
                assert(frontier_of(f) =~= w.subrange(o, e));
            },
        }
    }
}

/// The frontier of the first `c` trees of a forest is a prefix of the forest's frontier.
pub proof fn lemma_frontier_take(f: Seq<Tree>, c: int)
    requires
        0 <= c <= f.len(),
    ensures
        frontier_of(f.take(c)).len() <= frontier_of(f).len(),
        frontier_of(f.take(c)) == frontier_of(f).take(frontier_of(f.take(c)).len() as int),
    decreases f.len(),
{
    let whole = frontier_of(f);
    if c == f.len() {
        assert(f.take(c) =~= f);
        assert(whole.take(whole.len() as int) =~= whole);
    } else {
        lemma_frontier_take(f.drop_last(), c);
        assert(f.drop_last().take(c) =~= f.take(c));
        let part = frontier_of(f.take(c));
        assert(part =~= whole.take(part.len() as int));
    }
}

/// The item `lhs -> body` that began at `m`, with the dot behind the first `c` symbols.
pub open spec fn dotted(lhs: Symbol, body: Seq<Symbol>, c: int, m: int) -> Item {
    Item { lhs: lhs, symbols: body, dot: c as nat, origin: m as nat }
}

/// In a settled chart, an item of column `m` that waits for the root of a
/// derivation of the tokens from `m` to `e` stands advanced in column `e`.
pub proof fn lemma_over(
    g: Seq<Rule>,
    w: Seq<Seq<char>>,
    chart: Seq<Seq<Item>>,
    m: int,
    e: int,
    x: int,
    t: Tree,
)
    requires
        settled(g, w, chart, w.len() + 1),
        0 <= m <= e <= w.len(),
        0 <= x < chart[m].len(),
        next_symbol(chart[m][x]) == Some(t.term),
        is_derivation(g, t),
        frontier(t) == w.subrange(m, e),
    ensures
        chart[e].contains(advance(chart[m][x])),
    decreases t, 0int,
{
    assert(closed_upto(g, w, chart, m, chart[m].len() as int));
    match t.term {
        Symbol::Terminal(text) => {
            assert(frontier(t) =~= seq![text]);
            assert(w.subrange(m, e).len() == 1);
            assert(w.subrange(m, e)[0] == w[m]);
            assert(scan_done(w, chart, m, x));
        },
        Symbol::Nonterminal(name) => {
            let body = roots(t.children);
            let (p, a) = choose|p: int, a: int|
                0 <= p < g.len() && 0 <= a < g[p].alternatives.len() && g[p].lhs == t.term
                    && #[trigger] g[p].alternatives[a] == body;
            lemma_predictions_complete(g, t.term, m as nat, p, a);
            let len = t.children.len() as int;
            assert(predicted(g, chart, m, x));
            assert(t.term == Symbol::Nonterminal(name));
            assert(next_symbol(chart[m][x]) == Some(Symbol::Nonterminal(name)));
            assert(predictions(g, Symbol::Nonterminal(name), m as nat).contains(
                dotted(t.term, body, 0, m),
            ));
            assert(chart[m].contains(dotted(t.term, body, 0, m)));
            assert(t.children.take(len) =~= t.children);
            assert(body.take(len) =~= body);
            lemma_along(g, w, chart, m, t.term, body, t.children, len);
            let done = dotted(t.term, body, len, m);
            let c = choose|c: int| 0 <= c < chart[e].len() && chart[e][c] == done;
            assert(closed_upto(g, w, chart, e, chart[e].len() as int));
            assert(completed_pair(chart, e, c, m, x));
        },
    }
}

/// In a settled chart that holds the fresh item `lhs -> body` in column `m`,
/// where the `trees` derive the first symbols of `body` and the tokens from `m`
/// on begin with its frontier, the item with the dot behind the first `c`
/// symbols stands in the column that the frontier of the first `c` trees
/// leads to.
pub proof fn lemma_along(
    g: Seq<Rule>,
    w: Seq<Seq<char>>,
    chart: Seq<Seq<Item>>,
    m: int,
    lhs: Symbol,
    body: Seq<Symbol>,
    trees: Seq<Tree>,
    c: int,
)
    requires
        settled(g, w, chart, w.len() + 1),
        0 <= m,
        chart[m].contains(dotted(lhs, body, 0, m)),
        are_derivations(g, trees),
        trees.len() <= body.len(),
        roots(trees) == body.take(trees.len() as int),
        0 <= c <= trees.len(),
        m + frontier_of(trees).len() <= w.len(),
        frontier_of(trees) == w.subrange(m, m + frontier_of(trees).len()),
    ensures
        frontier_of(trees.take(c)).len() <= frontier_of(trees).len(),
        chart[m + frontier_of(trees.take(c)).len()].contains(dotted(lhs, body, c, m)),
    decreases trees, c,
{
    lemma_frontier_take(trees, c);
    if c == 0 {
        assert(trees.take(0) =~= Seq::<Tree>::empty());
    } else {
        lemma_along(g, w, chart, m, lhs, body, trees, c - 1);
        lemma_frontier_take(trees, c - 1);
        let whole = frontier_of(trees);
        let before = frontier_of(trees.take(c - 1));
        let now = frontier_of(trees.take(c));
        let m1 = m + before.len();
        let m2 = m + now.len();
        let child = trees[c - 1];
        assert(trees.take(c).drop_last() =~= trees.take(c - 1));
        assert(trees.take(c).last() == child);
        assert(now == before + frontier(child));
        assert forall|i: int| 0 <= i < frontier(child).len() implies frontier(child)[i] == w.subrange(
            m1,
            m2,
        )[i] by {
            assert(now[before.len() + i] == frontier(child)[i]);
            assert(now[before.len() + i] == whole[before.len() + i]);
        }
        assert(frontier(child) =~= w.subrange(m1, m2));
        let col = chart[m1];
        let x1 = choose|x1: int| 0 <= x1 < col.len() && col[x1] == dotted(lhs, body, c - 1, m);
        assert(roots(trees)[c - 1] == child.term);
        assert(body.take(trees.len() as int)[c - 1] == body[c - 1]);
        lemma_over(g, w, chart, m1, m2, x1, child);
        assert(advance(dotted(lhs, body, c - 1, m)) == dotted(lhs, body, c, m));
    }
}

/// The chart holds in column `k` every item whose `lhs` a path leads to at
/// its origin, and whose symbols before the dot derive the tokens from its
/// origin to `k`.
pub proof fn lemma_path_item(g: Seq<Rule>, w: Seq<Seq<char>>, path: Seq<Item>, it: Item, k: nat)
    requires
        calls(g, w, path, it.lhs, it.origin),
        k <= w.len(),
        admissible(g, it, k),
        derives(g, it.symbols.take(it.dot as int), w.subrange(it.origin as int, k as int)),
    ensures
        earley_chart(g, w)[k as int].contains(it),
    decreases path.len(),
{
    let chart = earley_chart(g, w);
    let o = it.origin as int;
    let fresh = dotted(it.lhs, it.symbols, 0, o);
    let (p, a) = choose|p: int, a: int|
        0 <= p < g.len() && 0 <= a < g[p].alternatives.len() && g[p].lhs == it.lhs
            && #[trigger] g[p].alternatives[a] == it.symbols;
    lemma_chart_settled(g, w);
    lemma_predictions_complete(g, it.lhs, it.origin, p, a);
    let offered = predictions(g, it.lhs, it.origin);
    let z = choose|z: int| 0 <= z < offered.len() && offered[z] == fresh;
    if path.len() == 0 {
        lemma_insert_all(Seq::empty(), offered);
        assert(initial(g, w)[0].contains(offered[z]));
        lemma_extends_contains(initial(g, w), chart, 0, fresh);
    } else {
        let last = path.last();
        lemma_path_item(g, w, path.drop_last(), last, it.origin);
        let col = chart[o];
        let x = choose|x: int| 0 <= x < col.len() && col[x] == last;
        assert(closed_upto(g, w, chart, o, chart[o].len() as int));
        assert(predicted(g, chart, o, x));
        match it.lhs {
            Symbol::Nonterminal(name) => {
                assert(predictions(g, Symbol::Nonterminal(name), o as nat).contains(offered[z]));
            },
            Symbol::Terminal(_) => {},
        }
    }
    assert(chart[o].contains(fresh));
    let f = choose|f: Seq<Tree>| #[trigger]
        are_derivations(g, f) && roots(f) == it.symbols.take(it.dot as int) && frontier_of(f)
            == w.subrange(o, k as int);
    assert(roots(f).len() == it.dot);
    let len = f.len() as int;
    assert(f.take(len) =~= f);
    lemma_along(g, w, chart, o, it.lhs, it.symbols, f, len);
    assert(dotted(it.lhs, it.symbols, len, o) == it);
}

/// The chart is exact: column `k` holds an item if and only if the item is
/// valid at `k`.
pub proof fn lemma_chart_exact(g: Seq<Rule>, w: Seq<Seq<char>>, it: Item, k: nat)
    requires
        g.len() > 0,
        k <= w.len(),
    ensures
        earley_chart(g, w)[k as int].contains(it) <==> valid(g, w, it, k),
{
    let chart = earley_chart(g, w);
    lemma_chart_settled(g, w);
    if chart[k as int].contains(it) {
        let col = chart[k as int];
        let x = choose|x: int| 0 <= x < col.len() && col[x] == it;
        assert(admissible(g, chart[k as int][x], k));
        assert(called(g, w, chart[k as int][x].lhs, chart[k as int][x].origin));
        lemma_forest(g, w, chart, k as int, x);
        assert(are_derivations(g, forest(chart, k as int, x).unwrap()));
    }
    if valid(g, w, it, k) {
        let path = choose|path: Seq<Item>| calls(g, w, path, it.lhs, it.origin);
        lemma_path_item(g, w, path, it, k);
    }
}

} // verus!
