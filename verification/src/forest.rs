//! The forest builder: one concrete derivation tree, reconstructed backwards
//! from the items of a chart.

use crate::earley::{is_complete, retreat, Chart, Item, State, StateSet};
use crate::grammar::Tree;
use crate::parser::ParseError;
use crate::term::{Symbol, Term};
use vstd::prelude::*;

verus! {

/// A node of a parse tree: a term and, below it, the nodes of the symbols it
/// was expanded into. A terminal has no children.
#[derive(Debug, PartialEq)]
pub struct ParseNode {
    pub term: Term,
    pub children: Vec<ParseNode>,
}

impl View for ParseNode {
    type V = Tree;

    open spec fn view(&self) -> Tree
        decreases self,
    {
        Tree { term: self.term@, children: trees_of(self.children@) }
    }
}

/// The trees that a sequence of parse nodes stands for.
pub open spec fn trees_of(nodes: Seq<ParseNode>) -> Seq<Tree>
    decreases nodes,
{
    if nodes.len() == 0 {
        Seq::empty()
    } else {
        trees_of(nodes.drop_last()).push(nodes.last()@)
    }
}

impl Clone for ParseNode {
    fn clone(&self) -> (r: ParseNode)
        ensures
            r@ == self@,
        decreases self,
    {
        let mut children: Vec<ParseNode> = Vec::new();
        let mut i: usize = 0;
        while i < self.children.len()
            invariant
                i <= self.children.len(),
                children.len() == i,
                trees_of(children@) == trees_of(self.children@.take(i as int)),
            decreases self.children.len() - i,
        {
            let ghost before = children@;
            let child = self.children[i].clone();
            children.push(child);
            proof {
                assert(children@.drop_last() =~= before);
                assert(self.children@.take(i + 1).drop_last() =~= self.children@.take(i as int));
            }
            i += 1;
        }
        assert(self.children@.take(self.children.len() as int) =~= self.children@);
        ParseNode { term: self.term.clone(), children }
    }
}

/// The symbol just before the dot, if the dot stands behind one.
pub open spec fn last_symbol(it: Item) -> Option<Symbol> {
    if 0 < it.dot <= it.symbols.len() {
        Some(it.symbols[it.dot - 1])
    } else {
        None
    }
}

/// Whether the item at index `c` of column `e` explains the last step of the
/// item at index `x` of that column: it was inserted earlier, it is a
/// completed item for the nonterminal just before the dot of `x`, and the
/// column at which it began holds `x` with the dot before that nonterminal,
/// inserted earlier than `x` if this is column `e` itself.
pub open spec fn explains(chart: Seq<Seq<Item>>, e: int, x: int, c: int) -> bool {
    let it = chart[e][x];
    let done = chart[e][c];
    &&& 0 <= c < x
    &&& is_complete(done)
    &&& last_symbol(it) == Some(done.lhs)
    &&& done.origin <= e
    &&& match chart[done.origin as int].index_of_first(retreat(it)) {
        Some(p) => 0 <= p && (done.origin < e || p < x),
        None => false,
    }
}

/// The least index from `from` on whose item explains the last step of the
/// item at index `x` of column `e`.
pub open spec fn first_explaining(chart: Seq<Seq<Item>>, e: int, x: int, from: int) -> Option<int>
    decreases x - from,
{
    if from < 0 || from >= x {
        None
    } else if explains(chart, e, x, from) {
        Some(from)
    } else {
        first_explaining(chart, e, x, from + 1)
    }
}

/// The trees of the symbols before the dot of the item at index `x` of column
/// `e`, read off the chart from right to left. A terminal before the dot is a
/// leaf, and the rest is found one column earlier. A nonterminal before the dot
/// is explained by a completed item of column `e`: among those that qualify,
/// the one that was inserted first. Its own trees hang below the nonterminal,
/// and the rest is found in the column at which it began. `None` where the
/// chart holds no such explanation.
pub open spec fn forest(chart: Seq<Seq<Item>>, e: int, x: int) -> Option<Seq<Tree>>
    decreases e, x,
{
    if !(0 <= e < chart.len() && 0 <= x < chart[e].len()) {
        None
    } else if chart[e][x].dot == 0 {
        Some(Seq::empty())
    } else {
        let it = chart[e][x];
        match last_symbol(it) {
            None => None,
            Some(Symbol::Terminal(text)) => {
                if e == 0 {
                    None
                } else {
                    match chart[e - 1].index_of_first(retreat(it)) {
                        None => None,
                        Some(p) => match forest(chart, e - 1, p) {
                            None => None,
                            Some(f) => Some(
                                f.push(
                                    Tree { term: Symbol::Terminal(text), children: Seq::empty() },
                                ),
                            ),
                        },
                    }
                }
            },
            Some(Symbol::Nonterminal(name)) => {
                match first_explaining(chart, e, x, 0) {
                    None => None,
                    Some(c) => {
                        if !explains(chart, e, x, c) {
                            None
                        } else {
                            let m = chart[e][c].origin as int;
                            let p = chart[m].index_of_first(retreat(it)).unwrap();
                            match (forest(chart, m, p), forest(chart, e, c)) {
                                (Some(f), Some(below)) => Some(
                                    f.push(
                                        Tree { term: Symbol::Nonterminal(name), children: below },
                                    ),
                                ),
                                _ => None,
                            }
                        }
                    },
                }
            },
        }
    }
}

/// The first item from `from` on that explains the item at `x`, if there is one.
pub proof fn lemma_first_explaining(chart: Seq<Seq<Item>>, e: int, x: int, from: int)
    requires
        0 <= from,
    ensures
        match first_explaining(chart, e, x, from) {
            Some(c) => from <= c < x && explains(chart, e, x, c) && forall|d: int|
                from <= d < c ==> !explains(chart, e, x, d),
            None => forall|d: int| from <= d < x ==> !explains(chart, e, x, d),
        },
    decreases x - from,
{
    if from < x && !explains(chart, e, x, from) {
        lemma_first_explaining(chart, e, x, from + 1);
    }
}

/// The index at which `set` holds `later` with its dot one symbol further to the left.
pub fn find_predecessor(set: &StateSet, later: &State) -> (r: Option<usize>)
    ensures
        match r {
            Some(p) => later@.dot > 0 && set@.index_of_first(retreat(later@)) == Some(p as int),
            None => later@.dot == 0 || set@.index_of_first(retreat(later@)) is None,
        },
{
    if later.position.dot == 0 {
        return None;
    }
    let mut p: usize = 0;
    while p < set.state.len()
        invariant
            p <= set.state.len(),
            later@.dot > 0,
            forall|j: int| 0 <= j < p ==> set@[j] != retreat(later@),
        decreases set.state.len() - p,
    {
        if set.state[p].precedes(later) {
            proof {
                set@.index_of_first_ensures(retreat(later@));
                assert(set@[p as int] == retreat(later@));
            }
            return Some(p);
        }
        p += 1;
    }
    proof {
        set@.index_of_first_ensures(retreat(later@));
    }
    None
}

/// The first item of column `e` that explains the last step of the item at
/// index `x`, with the index at which the item's predecessor stands in the
/// column where the explaining item began.
pub fn find_explaining(chart: &Chart, e: usize, x: usize) -> (r: Option<(usize, usize)>)
    requires
        e < chart@.len(),
        x < chart@[e as int].len(),
    ensures
        match r {
            Some((c, p)) => {
                &&& first_explaining(chart@, e as int, x as int, 0) == Some(c as int)
                &&& explains(chart@, e as int, x as int, c as int)
                &&& chart@[chart@[e as int][c as int].origin as int].index_of_first(
                    retreat(chart@[e as int][x as int]),
                ) == Some(p as int)
            },
            None => first_explaining(chart@, e as int, x as int, 0) is None,
        },
{
    let item = &chart.sets[e].state[x];
    let dot = item.position.dot;
    let mut c: usize = 0;
    while c < x
        invariant
            c <= x,
            e < chart@.len(),
            x < chart@[e as int].len(),
            item@ == chart@[e as int][x as int],
            dot == item.position.dot,
            first_explaining(chart@, e as int, x as int, 0) == first_explaining(
                chart@,
                e as int,
                x as int,
                c as int,
            ),
        decreases x - c,
    {
        let done = &chart.sets[e].state[c];
        assert(done@ == chart@[e as int][c as int]);
        if done.is_complete() && done.position.origin <= e && 0 < dot && dot <= item.symbols.len() {
            if item.symbols[dot - 1] == done.lhs {
                match find_predecessor(&chart.sets[done.position.origin], item) {
                    Some(p) => {
                        if done.position.origin < e || p < x {
                            return Some((c, p));
                        }
                    },
                    None => {},
                }
            }
        }
        c += 1;
    }
    None
}

/// Forest builder: the nodes of the symbols before the dot of the item at
/// index `x` of column `e`, as [`forest`] reads them off the chart.
pub fn build_forest(chart: &Chart, e: usize, x: usize) -> (r: Result<Vec<ParseNode>, ParseError>)
    ensures
        match r {
            Ok(nodes) => forest(chart@, e as int, x as int) == Some(trees_of(nodes@)),
            Err(err) => err == ParseError::InternalInconsistency && forest(
                chart@,
                e as int,
                x as int,
            ) is None,
        },
    decreases e, x,
{
    if e >= chart.sets.len() || x >= chart.sets[e].len() {
        return Err(ParseError::InternalInconsistency);
    }
    let item = &chart.sets[e].state[x];
    assert(item@ == chart@[e as int][x as int]);
    let dot = item.position.dot;
    if dot == 0 {
        let nodes: Vec<ParseNode> = Vec::new();
        return Ok(nodes);
    }
    if dot > item.symbols.len() {
        return Err(ParseError::InternalInconsistency);
    }
    let last = &item.symbols[dot - 1];
    assert(last_symbol(item@) == Some(last@));
    match last {
        Term::Terminal(_) => {
            if e == 0 {
                return Err(ParseError::InternalInconsistency);
            }
            match find_predecessor(&chart.sets[e - 1], item) {
                None => Err(ParseError::InternalInconsistency),
                Some(p) => match build_forest(chart, e - 1, p) {
                    Err(err) => Err(err),
                    Ok(nodes) => {
                        let mut nodes = nodes;
                        let ghost before = nodes@;
                        let leaf = ParseNode { term: last.clone(), children: Vec::new() };
                        assert(leaf.children@ =~= Seq::<ParseNode>::empty());
                        assert(leaf@ == (Tree { term: last@, children: Seq::empty() }));
                        nodes.push(leaf);
                        assert(nodes@.drop_last() =~= before);
                        assert(trees_of(nodes@) == trees_of(before).push(leaf@));
                        Ok(nodes)
                    },
                },
            }
        },
        Term::Nonterminal(_) => {
            match find_explaining(chart, e, x) {
                None => Err(ParseError::InternalInconsistency),
                Some((c, p)) => {
                    let m = chart.sets[e].state[c].position.origin;
                    match build_forest(chart, m, p) {
                        Err(err) => Err(err),
                        Ok(nodes) => match build_forest(chart, e, c) {
                            Err(err) => Err(err),
                            Ok(below) => {
                                let mut nodes = nodes;
                                let ghost before = nodes@;
                                let node = ParseNode { term: last.clone(), children: below };
                                assert(node@ == (Tree { term: last@, children: trees_of(below@) }));
                                nodes.push(node);
                                assert(nodes@.drop_last() =~= before);
                                assert(trees_of(nodes@) == trees_of(before).push(node@));
                                Ok(nodes)
                            },
                        },
                    }
                },
            }
        },
    }
}

/// The derivation tree of the completed item at index `x` of column `e`: the
/// item's `lhs` with the item's forest below it.
pub open spec fn tree(chart: Seq<Seq<Item>>, e: int, x: int) -> Option<Tree> {
    if 0 <= e < chart.len() && 0 <= x < chart[e].len() && is_complete(chart[e][x]) {
        match forest(chart, e, x) {
            Some(f) => Some(Tree { term: chart[e][x].lhs, children: f }),
            None => None,
        }
    } else {
        None
    }
}

/// Forest builder for a chosen root: the parse tree of the completed item at
/// index `x` of column `e`, as [`tree`] reads it off the chart.
/// `InternalInconsistency` where there is no such item or the chart does not
/// account for it.
pub fn build_tree(chart: &Chart, e: usize, x: usize) -> (r: Result<ParseNode, ParseError>)
    ensures
        match r {
            Ok(node) => tree(chart@, e as int, x as int) == Some(node@),
            Err(err) => err == ParseError::InternalInconsistency && tree(chart@, e as int, x as int)
                is None,
        },
{
    if e >= chart.sets.len() || x >= chart.sets[e].len() {
        return Err(ParseError::InternalInconsistency);
    }
    let item = &chart.sets[e].state[x];
    assert(item@ == chart@[e as int][x as int]);
    if !item.is_complete() {
        return Err(ParseError::InternalInconsistency);
    }
    match build_forest(chart, e, x) {
        Ok(children) => Ok(ParseNode { term: item.lhs.clone(), children }),
        Err(err) => Err(err),
    }
}

} // verus!
