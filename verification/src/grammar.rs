//! The grammar model: expressions, productions and grammars, and what it
//! means for a grammar to derive a sequence of tokens.

use crate::term::{Symbol, Term};
use vstd::prelude::*;

verus! {

/// The symbols that a sequence of terms stands for.
pub open spec fn symbols_of(terms: Seq<Term>) -> Seq<Symbol> {
    Seq::new(terms.len(), |i: int| terms[i]@)
}

/// The texts that a sequence of tokens stands for.
pub open spec fn texts_of(tokens: Seq<String>) -> Seq<Seq<char>> {
    Seq::new(tokens.len(), |i: int| tokens[i]@)
}

/// One alternative of a production: an ordered sequence of terms.
#[derive(Debug, PartialEq)]
pub struct Expression {
    pub terms: Vec<Term>,
}

/// A nonterminal and the alternative bodies that it may be expanded into.
#[derive(Debug, PartialEq)]
pub struct Production {
    pub lhs: Term,
    pub alternatives: Vec<Expression>,
}

/// A collection of productions. The first production's `lhs` is the start symbol.
#[derive(Debug, PartialEq)]
pub struct Grammar {
    pub productions: Vec<Production>,
}

/// What a [`Production`] is in contracts.
pub struct Rule {
    pub lhs: Symbol,
    pub alternatives: Seq<Seq<Symbol>>,
}

impl View for Expression {
    type V = Seq<Symbol>;

    open spec fn view(&self) -> Seq<Symbol> {
        symbols_of(self.terms@)
    }
}

impl View for Production {
    type V = Rule;

    open spec fn view(&self) -> Rule {
        Rule {
            lhs: self.lhs@,
            alternatives: Seq::new(self.alternatives.len() as nat, |i: int| self.alternatives[i]@),
        }
    }
}

impl View for Grammar {
    type V = Seq<Rule>;

    open spec fn view(&self) -> Seq<Rule> {
        Seq::new(self.productions.len() as nat, |i: int| self.productions[i]@)
    }
}

/// A copy of a sequence of terms.
pub fn clone_terms(terms: &Vec<Term>) -> (r: Vec<Term>)
    ensures
        symbols_of(r@) == symbols_of(terms@),
{
    let mut r: Vec<Term> = Vec::new();
    let mut i: usize = 0;
    while i < terms.len()
        invariant
            i <= terms.len(),
            r.len() == i,
            forall|j: int| 0 <= j < i ==> r[j]@ == terms[j]@,
        decreases terms.len() - i,
    {
        r.push(terms[i].clone());
        i += 1;
    }
    assert(symbols_of(r@) =~= symbols_of(terms@));
    r
}

/// Whether two sequences of terms stand for the same symbols.
pub fn same_terms(a: &Vec<Term>, b: &Vec<Term>) -> (r: bool)
    ensures
        r == (symbols_of(a@) == symbols_of(b@)),
{
    if a.len() != b.len() {
        assert(symbols_of(a@).len() != symbols_of(b@).len());
        return false;
    }
    let mut i: usize = 0;
    while i < a.len()
        invariant
            i <= a.len(),
            a.len() == b.len(),
            forall|j: int| 0 <= j < i ==> a[j]@ == b[j]@,
        decreases a.len() - i,
    {
        if !(a[i] == b[i]) {
            assert(symbols_of(a@)[i as int] != symbols_of(b@)[i as int]);
            return false;
        }
        i += 1;
    }
    assert(symbols_of(a@) =~= symbols_of(b@));
    true
}

impl Clone for Expression {
    fn clone(&self) -> (r: Expression)
        ensures
            r@ == self@,
    {
        Expression { terms: clone_terms(&self.terms) }
    }
}

impl Clone for Production {
    fn clone(&self) -> (r: Production)
        ensures
            r@ == self@,
    {
        let mut alternatives: Vec<Expression> = Vec::new();
        let mut i: usize = 0;
        while i < self.alternatives.len()
            invariant
                i <= self.alternatives.len(),
                alternatives.len() == i,
                forall|j: int| 0 <= j < i ==> alternatives[j]@ == self.alternatives[j]@,
            decreases self.alternatives.len() - i,
        {
            alternatives.push(self.alternatives[i].clone());
            i += 1;
        }
        let r = Production { lhs: self.lhs.clone(), alternatives };
        assert(r@.alternatives =~= self@.alternatives);
        r
    }
}

impl Clone for Grammar {
    fn clone(&self) -> (r: Grammar)
        ensures
            r@ == self@,
    {
        let mut productions: Vec<Production> = Vec::new();
        let mut i: usize = 0;
        while i < self.productions.len()
            invariant
                i <= self.productions.len(),
                productions.len() == i,
                forall|j: int| 0 <= j < i ==> productions[j]@ == self.productions[j]@,
            decreases self.productions.len() - i,
        {
            productions.push(self.productions[i].clone());
            i += 1;
        }
        let r = Grammar { productions };
        assert(r@ =~= self@);
        r
    }
}

/// A derivation tree: a symbol and, below it, the trees of the symbols that
/// it was expanded into.
pub struct Tree {
    pub term: Symbol,
    pub children: Seq<Tree>,
}

/// The symbols at the roots of a sequence of trees.
pub open spec fn roots(forest: Seq<Tree>) -> Seq<Symbol> {
    Seq::new(forest.len(), |i: int| forest[i].term)
}

/// Whether the grammar lets the nonterminal `lhs` be expanded into `body`.
pub open spec fn is_rule(g: Seq<Rule>, lhs: Symbol, body: Seq<Symbol>) -> bool {
    &&& lhs is Nonterminal
    &&& exists|p: int, a: int|
        0 <= p < g.len() && 0 <= a < g[p].alternatives.len() && g[p].lhs == lhs
            && #[trigger] g[p].alternatives[a] == body
}

/// Whether a tree is a derivation of the grammar: each terminal is a leaf and
/// each nonterminal is expanded by one of its alternatives.
pub open spec fn is_derivation(g: Seq<Rule>, t: Tree) -> bool
    decreases t,
{
    match t.term {
        Symbol::Terminal(_) => t.children.len() == 0,
        Symbol::Nonterminal(_) => {
            &&& is_rule(g, t.term, roots(t.children))
            &&& forall|i: int|
                0 <= i < t.children.len() ==> is_derivation(g, #[trigger] t.children[i])
        },
    }
}

/// Whether every tree of a forest is a derivation of the grammar.
pub open spec fn are_derivations(g: Seq<Rule>, forest: Seq<Tree>) -> bool {
    forall|i: int| 0 <= i < forest.len() ==> is_derivation(g, #[trigger] forest[i])
}

/// The texts of a tree's terminal leaves, from left to right.
pub open spec fn frontier(t: Tree) -> Seq<Seq<char>>
    decreases t,
{
    match t.term {
        Symbol::Terminal(text) => seq![text],
        Symbol::Nonterminal(_) => frontier_of(t.children),
    }
}

/// The texts of a forest's terminal leaves, from left to right.
pub open spec fn frontier_of(forest: Seq<Tree>) -> Seq<Seq<char>>
    decreases forest,
{
    if forest.len() == 0 {
        Seq::empty()
    } else {
        frontier_of(forest.drop_last()) + frontier(forest.last())
    }
}

/// Whether the symbols `body`, one after the other, derive the token texts `u`.
pub open spec fn derives(g: Seq<Rule>, body: Seq<Symbol>, u: Seq<Seq<char>>) -> bool {
    exists|f: Seq<Tree>| #[trigger] are_derivations(g, f) && roots(f) == body && frontier_of(f) == u
}

/// The start symbol: the `lhs` of the first production.
pub open spec fn start_symbol(g: Seq<Rule>) -> Symbol
    recommends
        g.len() > 0,
{
    g[0].lhs
}

/// Whether the token texts `w` can be derived from the grammar's start symbol.
pub open spec fn derivable(g: Seq<Rule>, w: Seq<Seq<char>>) -> bool {
    &&& g.len() > 0
    &&& exists|t: Tree| #[trigger]
        is_derivation(g, t) && t.term == start_symbol(g) && t.term is Nonterminal && frontier(t)
            == w
}

} // verus!
