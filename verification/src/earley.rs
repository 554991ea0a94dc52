//! Items and state sets: the dotted productions of an Earley chart and the
//! per-column containers that hold them.

use crate::grammar::{clone_terms, same_terms, symbols_of};
use crate::term::{Symbol, Term};
use vstd::prelude::*;
use vstd::std_specs::cmp::PartialEqSpecImpl;

verus! {

/// Where an item stands: how much of its body has been matched, and the
/// column at which its recognition began.
#[derive(Clone, Copy, Debug, PartialEq, Eq)]
pub struct Position {
    pub dot: usize,
    pub origin: usize,
}

/// An item: a production alternative with a dot in its body, tagged with its origin.
#[derive(Debug)]
pub struct State {
    pub lhs: Term,
    pub symbols: Vec<Term>,
    pub position: Position,
}

/// What a [`State`] is in contracts.
pub struct Item {
    pub lhs: Symbol,
    pub symbols: Seq<Symbol>,
    pub dot: nat,
    pub origin: nat,
}

/// The symbol at the dot; `None` if the dot stands at the end.
pub open spec fn next_symbol(it: Item) -> Option<Symbol> {
    if it.dot < it.symbols.len() {
        Some(it.symbols[it.dot as int])
    } else {
        None
    }
}

/// Whether the whole body has been matched.
pub open spec fn is_complete(it: Item) -> bool {
    it.dot == it.symbols.len()
}

/// The item with its dot moved one symbol to the right.
pub open spec fn advance(it: Item) -> Item {
    Item { dot: it.dot + 1, ..it }
}

/// The item with its dot moved one symbol to the left.
pub open spec fn retreat(it: Item) -> Item {
    Item { dot: (it.dot - 1) as nat, ..it }
}

/// A column after `it` was offered to it: appended if it was not there, else unchanged.
pub open spec fn insert(col: Seq<Item>, it: Item) -> Seq<Item> {
    if col.contains(it) {
        col
    } else {
        col.push(it)
    }
}

/// A column after each of `items` was offered to it in turn.
pub open spec fn insert_all(col: Seq<Item>, items: Seq<Item>) -> Seq<Item>
    decreases items.len(),
{
    if items.len() == 0 {
        col
    } else {
        insert(insert_all(col, items.drop_last()), items.last())
    }
}

/// The items that a sequence of states stands for.
pub open spec fn items_of(states: Seq<State>) -> Seq<Item> {
    Seq::new(states.len(), |i: int| states[i]@)
}

impl View for State {
    type V = Item;

    open spec fn view(&self) -> Item {
        Item {
            lhs: self.lhs@,
            symbols: symbols_of(self.symbols@),
            dot: self.position.dot as nat,
            origin: self.position.origin as nat,
        }
    }
}

impl Clone for State {
    fn clone(&self) -> (r: State)
        ensures
            r@ == self@,
    {
        State {
            lhs: self.lhs.clone(),
            symbols: clone_terms(&self.symbols),
            position: Position { dot: self.position.dot, origin: self.position.origin },
        }
    }
}

impl PartialEq for State {
    fn eq(&self, other: &State) -> (r: bool) {
        self.lhs == other.lhs && same_terms(&self.symbols, &other.symbols) && self.position.dot
            == other.position.dot && self.position.origin == other.position.origin
    }
}

impl PartialEqSpecImpl for State {
    open spec fn obeys_eq_spec() -> bool {
        true
    }

    open spec fn eq_spec(&self, other: &State) -> bool {
        self@ == other@
    }
}

impl State {
    /// Whether the dot stands within the body or at its end.
    pub open spec fn wf(&self) -> bool {
        self@.dot <= self@.symbols.len()
    }

    /// An item for `lhs` and the body `symbols` with nothing matched yet.
    pub fn new(lhs: Term, symbols: Vec<Term>, origin: usize) -> (r: State)
        ensures
            r@ == (Item {
                lhs: lhs@,
                symbols: symbols_of(symbols@),
                dot: 0,
                origin: origin as nat,
            }),
            r.wf(),
    {
        State { lhs, symbols, position: Position { dot: 0, origin } }
    }

    /// The symbol at the dot, `None` if the item is completed.
    pub fn next_symbol(&self) -> (r: Option<&Term>)
        ensures
            match r {
                Some(t) => next_symbol(self@) == Some(t@) && self.position.dot < usize::MAX,
                None => next_symbol(self@) is None,
            },
    {
        if self.position.dot < self.symbols.len() {
            Some(&self.symbols[self.position.dot])
        } else {
            None
        }
    }

    /// Whether the dot stands at the end of the body.
    pub fn is_complete(&self) -> (r: bool)
        ensures
            r == is_complete(self@),
    {
        self.position.dot == self.symbols.len()
    }

    /// A new item with the dot one symbol further; all else unchanged.
    pub fn advance(&self) -> (r: State)
        requires
            self.position.dot < usize::MAX,
        ensures
            r@ == advance(self@),
            next_symbol(self@) is Some ==> r.wf(),
    {
        State {
            lhs: self.lhs.clone(),
            symbols: clone_terms(&self.symbols),
            position: Position { dot: self.position.dot + 1, origin: self.position.origin },
        }
    }

    /// Whether `self` is `later` with its dot one symbol further to the left.
    pub fn precedes(&self, later: &State) -> (r: bool)
        ensures
            r == (later@.dot > 0 && self@ == retreat(later@)),
    {
        later.position.dot > 0 && self.position.dot == later.position.dot - 1
            && self.position.origin == later.position.origin && self.lhs == later.lhs
            && same_terms(&self.symbols, &later.symbols)
    }
}

/// One column of a chart: the items established at one input position, in
/// the order in which they were inserted.
#[derive(Debug, PartialEq)]
pub struct StateSet {
    pub state: Vec<State>,
}

impl View for StateSet {
    type V = Seq<Item>;

    open spec fn view(&self) -> Seq<Item> {
        items_of(self.state@)
    }
}

impl StateSet {
    /// Whether no item stands twice in the set.
    pub open spec fn wf(&self) -> bool {
        self@.no_duplicates()
    }

    /// A set without items.
    pub fn new() -> (r: StateSet)
        ensures
            r@ == Seq::<Item>::empty(),
            r.wf(),
    {
        let r = StateSet { state: vec![] };
        assert(r@ =~= Seq::<Item>::empty());
        r
    }

    /// The number of items in the set.
    pub fn len(&self) -> (r: usize)
        ensures
            r == self@.len(),
    {
        self.state.len()
    }

    /// The index at which `item` was inserted, `None` if it is not in the set.
    pub fn position(&self, item: &State) -> (r: Option<usize>)
        ensures
            match r {
                Some(i) => self@.index_of_first(item@) == Some(i as int),
                None => self@.index_of_first(item@) is None,
            },
    {
        let mut i: usize = 0;
        while i < self.state.len()
            invariant
                i <= self.state.len(),
                forall|j: int| 0 <= j < i ==> self@[j] != item@,
            decreases self.state.len() - i,
        {
            if self.state[i] == *item {
                proof {
                    self@.index_of_first_ensures(item@);
                    assert(self@[i as int] == item@);
                }
                return Some(i);
            }
            i += 1;
        }
        proof {
            self@.index_of_first_ensures(item@);
        }
        None
    }

    /// Whether `item` is in the set.
    pub fn contains(&self, item: &State) -> (r: bool)
        ensures
            r == self@.contains(item@),
    {
        proof {
            self@.index_of_first_ensures(item@);
        }
        self.position(item).is_some()
    }

    /// Adds `item` unless it is already there; reports whether it was newly added.
    pub fn insert(&mut self, item: State) -> (r: bool)
        ensures
            final(self)@ == insert(old(self)@, item@),
            r == !old(self)@.contains(item@),
            old(self)@.is_prefix_of(final(self)@),
            old(self).wf() ==> final(self).wf(),
    {
        if self.contains(&item) {
            false
        } else {
            self.state.push(item);
            assert(self@ =~= old(self)@.push(item@));
            true
        }
    }
}

impl StateSet {
    /// Offers each of `items` to the set in turn.
    pub fn insert_all(&mut self, items: &Vec<State>)
        ensures
            final(self)@ == insert_all(old(self)@, items_of(items@)),
            old(self)@.is_prefix_of(final(self)@),
            old(self).wf() ==> final(self).wf(),
    {
        let mut j: usize = 0;
        while j < items.len()
            invariant
                j <= items.len(),
                self@ == insert_all(old(self)@, items_of(items@).take(j as int)),
                old(self)@.is_prefix_of(self@),
                old(self).wf() ==> self.wf(),
            decreases items.len() - j,
        {
            self.insert(items[j].clone());
            proof {
                let now = items_of(items@).take(j + 1);
                assert(now.drop_last() =~= items_of(items@).take(j as int));
                assert(now.last() == items[j as int]@);
            }
            j += 1;
        }
        assert(items_of(items@).take(items.len() as int) =~= items_of(items@));
    }
}

/// The chart: one state set for each input position, from `0` to the number of tokens.
#[derive(Debug, PartialEq)]
pub struct Chart {
    pub sets: Vec<StateSet>,
}

impl View for Chart {
    type V = Seq<Seq<Item>>;

    open spec fn view(&self) -> Seq<Seq<Item>> {
        Seq::new(self.sets.len() as nat, |k: int| self.sets[k]@)
    }
}

impl Chart {
    /// The last column that holds an item: how far into the input the
    /// scanner came. `None` where no column holds one.
    pub fn furthest(&self) -> (r: Option<usize>)
        ensures
            match r {
                Some(k) => k < self@.len() && self@[k as int].len() > 0 && forall|j: int|
                    k < j < self@.len() ==> (#[trigger] self@[j]).len() == 0,
                None => forall|j: int| 0 <= j < self@.len() ==> (#[trigger] self@[j]).len() == 0,
            },
    {
        let mut k: usize = self.sets.len();
        while k > 0
            invariant
                k <= self.sets.len(),
                forall|j: int| k <= j < self@.len() ==> (#[trigger] self@[j]).len() == 0,
            decreases k,
        {
            k -= 1;
            if self.sets[k].len() > 0 {
                return Some(k);
            }
        }
        None
    }
}

impl Clone for StateSet {
    fn clone(&self) -> (r: StateSet)
        ensures
            r@ == self@,
    {
        let mut state: Vec<State> = Vec::new();
        let mut i: usize = 0;
        while i < self.state.len()
            invariant
                i <= self.state.len(),
                state.len() == i,
                forall|j: int| 0 <= j < i ==> state[j]@ == self.state[j]@,
            decreases self.state.len() - i,
        {
            state.push(self.state[i].clone());
            i += 1;
        }
        let r = StateSet { state };
        assert(r@ =~= self@);
        r
    }
}

impl Clone for Chart {
    fn clone(&self) -> (r: Chart)
        ensures
            r@ == self@,
    {
        let mut sets: Vec<StateSet> = Vec::new();
        let mut i: usize = 0;
        while i < self.sets.len()
            invariant
                i <= self.sets.len(),
                sets.len() == i,
                forall|j: int| 0 <= j < i ==> sets[j]@ == self.sets[j]@,
            decreases self.sets.len() - i,
        {
            sets.push(self.sets[i].clone());
            i += 1;
        }
        let r = Chart { sets };
        assert(r@ =~= self@);
        r
    }
}

} // verus!
