//! The engine: predictor, scanner and completer, and the driver that fills
//! the chart column by column.

use crate::earley::{
    advance, insert_all, is_complete, items_of, next_symbol, Chart, Item, State, StateSet,
};
use crate::grammar::{clone_terms, start_symbol, texts_of, Grammar};
use crate::machine::{
    close, columns, completed_at, completions, earley_chart, fresh_items, initial,
    lemma_initial_well_formed, lemma_step_well_formed, offers, predictions, room, scanned, step,
    target, well_formed,
};
use crate::correctness::lemma_chart_exact;
use crate::progress::{
    extends, lemma_chart_settled, lemma_close_extends, lemma_step_extends, settled, valid,
};
use crate::term::Term;
use vstd::prelude::*;

verus! {

/// Predictor: fresh items at column `k` for every alternative of every
/// production of the nonterminal `term`, in the grammar's order.
pub fn earley_predictor(term: &Term, k: usize, grammar: &Grammar) -> (r: Vec<State>)
    ensures
        items_of(r@) == predictions(grammar@, term@, k as nat),
{
    let mut r: Vec<State> = Vec::new();
    let ghost g = grammar@;
    match term {
        Term::Terminal(_) => {
            assert(items_of(r@) =~= predictions(g, term@, k as nat));
            return r;
        },
        Term::Nonterminal(_) => {},
    }
    let mut p: usize = 0;
    assert(items_of(r@) =~= predictions(g.take(0), term@, k as nat));
    while p < grammar.productions.len()
        invariant
            p <= grammar.productions.len(),
            g == grammar@,
            term@ is Nonterminal,
            items_of(r@) == predictions(g.take(p as int), term@, k as nat),
        decreases grammar.productions.len() - p,
    {
        let prod = &grammar.productions[p];
        proof {
            assert(g.take(p + 1).drop_last() =~= g.take(p as int));
            assert(g.take(p + 1).last() == prod@);
        }
        if prod.lhs == *term {
            let ghost before = items_of(r@);
            let ghost news = fresh_items(term@, prod@.alternatives, k as nat);
            let mut a: usize = 0;
            assert(items_of(r@) =~= before + news.take(0));
            while a < prod.alternatives.len()
                invariant
                    a <= prod.alternatives.len(),
                    news == fresh_items(term@, prod@.alternatives, k as nat),
                    prod.lhs@ == term@,
                    items_of(r@) == before + news.take(a as int),
                decreases prod.alternatives.len() - a,
            {
                let ghost old_r = r@;
                r.push(State::new(prod.lhs.clone(), clone_terms(&prod.alternatives[a].terms), k));
                assert(items_of(r@) =~= items_of(old_r).push(news[a as int]));
                assert(before + news.take(a + 1) =~= (before + news.take(a as int)).push(
                    news[a as int],
                ));
                a += 1;
            }
            assert(news.take(prod.alternatives.len() as int) =~= news);
        }
        p += 1;
    }
    assert(g.take(grammar.productions.len() as int) =~= g);
    r
}

/// Scanner: the item advanced into the next column, if the token at `k` is
/// the terminal at its dot; nothing otherwise.
pub fn earley_scanner(k: usize, tokens: &Vec<String>, item: &State) -> (r: Vec<State>)
    ensures
        items_of(r@) == scanned(texts_of(tokens@), k as nat, item@),
{
    let mut r: Vec<State> = Vec::new();
    if k < tokens.len() {
        match item.next_symbol() {
            Some(Term::Terminal(text)) => {
                if *text == tokens[k] {
                    r.push(item.advance());
                }
            },
            _ => {},
        }
    }
    assert(items_of(r@) =~= scanned(texts_of(tokens@), k as nat, item@));
    r
}

/// Completer: every item of `parents` that waits for the `lhs` of the
/// completed item `finished`, advanced, in the order of `parents`.
pub fn earley_completer(parents: &StateSet, finished: &State) -> (r: Vec<State>)
    ensures
        items_of(r@) == completions(parents@, finished@.lhs),
{
    let mut r: Vec<State> = Vec::new();
    let mut j: usize = 0;
    assert(items_of(r@) =~= completions(parents@.take(0), finished@.lhs));
    while j < parents.state.len()
        invariant
            j <= parents.state.len(),
            items_of(r@) == completions(parents@.take(j as int), finished@.lhs),
        decreases parents.state.len() - j,
    {
        let parent = &parents.state[j];
        proof {
            assert(parents@.take(j + 1).drop_last() =~= parents@.take(j as int));
            assert(parents@.take(j + 1).last() == parent@);
        }
        let ghost old_r = r@;
        match parent.next_symbol() {
            Some(t) => {
                if *t == finished.lhs {
                    r.push(parent.advance());
                    assert(items_of(r@) =~= items_of(old_r).push(advance(parent@)));
                }
            },
            None => {},
        }
        j += 1;
    }
    assert(parents@.take(parents.state.len() as int) =~= parents@);
    r
}

/// Whether the set holds a completed item for `term` that began at column `k`.
pub fn has_completed(set: &StateSet, term: &Term, k: usize) -> (r: bool)
    ensures
        r == completed_at(set@, term@, k as nat),
{
    let mut c: usize = 0;
    while c < set.state.len()
        invariant
            c <= set.state.len(),
            forall|j: int|
                0 <= j < c ==> !(is_complete(#[trigger] set@[j]) && set@[j].lhs == term@
                    && set@[j].origin == k),
        decreases set.state.len() - c,
    {
        let s = &set.state[c];
        if s.is_complete() && s.position.origin == k && s.lhs == *term {
            assert(is_complete(set@[c as int]));
            return true;
        }
        c += 1;
    }
    false
}

/// The first column before any item has been processed: the predictions for
/// the start symbol. `None` for a grammar without productions.
pub fn earley_init(grammar: &Grammar) -> (r: Option<StateSet>)
    ensures
        match r {
            None => grammar@.len() == 0,
            Some(set) => grammar@.len() > 0 && set@ == insert_all(
                Seq::empty(),
                predictions(grammar@, start_symbol(grammar@), 0),
            ),
        },
{
    if grammar.productions.len() == 0 {
        return None;
    }
    let items = earley_predictor(&grammar.productions[0].lhs, 0, grammar);
    let mut set = StateSet::new();
    set.insert_all(&items);
    Some(set)
}

/// Processes the item at index `i` of column `k`. Of an item that waits for
/// a nonterminal, the predictor's items are offered to column `k`, and the
/// item itself advanced where the column has already completed that
/// nonterminal over the empty span. Of an item that waits for a terminal, the
/// scanner's item is offered to column `k + 1`. Of a completed item, the
/// completer's items are offered to column `k`.
pub fn process(chart: &mut Chart, grammar: &Grammar, tokens: &Vec<String>, k: usize, i: usize)
    requires
        k < old(chart)@.len(),
        i < old(chart)@[k as int].len(),
    ensures
        final(chart)@ == step(grammar@, texts_of(tokens@), old(chart)@, k as nat, i as nat),
        extends(old(chart)@, final(chart)@),
{
    proof {
        lemma_step_extends(grammar@, texts_of(tokens@), chart@, k as nat, i as nat);
    }
    let item = chart.sets[k].state[i].clone();
    assert(item@ == chart@[k as int][i as int]);
    let mut offered: Vec<State>;
    let mut t: usize = k;
    match item.next_symbol() {
        Some(Term::Nonterminal(_)) => {
            let n = &item.symbols[item.position.dot];
            offered = earley_predictor(n, k, grammar);
            if has_completed(&chart.sets[k], n, k) {
                let ghost before = offered@;
                offered.push(item.advance());
                assert(items_of(offered@) =~= items_of(before).push(advance(item@)));
            }
        },
        Some(Term::Terminal(_)) => {
            offered = earley_scanner(k, tokens, &item);
            t = k + 1;
        },
        None => {
            if item.position.origin < chart.sets.len() {
                offered = earley_completer(&chart.sets[item.position.origin], &item);
            } else {
                offered = Vec::new();
                assert(items_of(offered@) =~= Seq::<Item>::empty());
            }
        },
    }
    assert(t == target(chart@, k as nat, i as nat));
    assert(items_of(offered@) == offers(grammar@, texts_of(tokens@), chart@, k as nat, i as nat));
    if t < chart.sets.len() {
        let set = &mut chart.sets[t];
        set.insert_all(&offered);
        assert(chart@ =~= old(chart)@.update(
            t as int,
            insert_all(old(chart)@[t as int], items_of(offered@)),
        ));
    }
}

/// Driver for one column: processes the items of column `k` in the order of
/// their insertion, those that the processing adds included, until none is left.
pub fn close_column(chart: &mut Chart, grammar: &Grammar, tokens: &Vec<String>, k: usize)
    requires
        well_formed(grammar@, texts_of(tokens@), old(chart)@),
        k < old(chart)@.len(),
    ensures
        final(chart)@ == close(grammar@, texts_of(tokens@), old(chart)@, k as nat, 0),
        well_formed(grammar@, texts_of(tokens@), final(chart)@),
        extends(old(chart)@, final(chart)@),
{
    let ghost g = grammar@;
    let ghost w = texts_of(tokens@);
    proof {
        lemma_close_extends(g, w, chart@, k as nat, 0);
    }
    let mut i: usize = 0;
    while i < chart.sets[k].len()
        invariant
            g == grammar@,
            w == texts_of(tokens@),
            well_formed(g, w, chart@),
            k < chart@.len(),
            i <= chart@[k as int].len(),
            close(g, w, chart@, k as nat, i as nat) == close(g, w, old(chart)@, k as nat, 0),
        decreases room(g, k as nat, chart@[k as int]) + chart@[k as int].len() - i,
    {
        proof {
            lemma_step_well_formed(g, w, chart@, k as nat, i as nat);
        }
        process(chart, grammar, tokens, k, i);
        i += 1;
    }
}

/// Builds the chart of `grammar` over `tokens`: column `0` is seeded with the
/// predictions for the start symbol, and the columns are closed in increasing
/// order. Each column then holds, once each, exactly the items that are valid
/// at its position. A grammar without productions gives a chart without columns.
pub fn build_chart(grammar: &Grammar, tokens: &Vec<String>) -> (chart: Chart)
    requires
        tokens.len() < usize::MAX,
    ensures
        chart@ == earley_chart(grammar@, texts_of(tokens@)),
        grammar@.len() == 0 ==> chart@.len() == 0,
        grammar@.len() > 0 ==> settled(
            grammar@,
            texts_of(tokens@),
            chart@,
            (tokens.len() + 1) as nat,
        ),
        grammar@.len() > 0 ==> forall|it: Item, k: nat|
            k <= tokens.len() ==> (chart@[k as int].contains(it) <==> #[trigger] valid(
                grammar@,
                texts_of(tokens@),
                it,
                k,
            )),
{
    proof {
        if grammar@.len() > 0 {
            lemma_chart_settled(grammar@, texts_of(tokens@));
            assert forall|it: Item, k: nat| k <= tokens.len() implies (earley_chart(
                grammar@,
                texts_of(tokens@),
            )[k as int].contains(it) <==> #[trigger] valid(grammar@, texts_of(tokens@), it, k)) by {
                lemma_chart_exact(grammar@, texts_of(tokens@), it, k);
            }
        }
    }
    let ghost g = grammar@;
    let ghost w = texts_of(tokens@);
    let first = match earley_init(grammar) {
        None => {
            let chart = Chart { sets: Vec::new() };
            assert(chart@ =~= earley_chart(g, w));
            return chart;
        },
        Some(set) => set,
    };
    let mut chart = Chart { sets: Vec::new() };
    chart.sets.push(first);
    let mut j: usize = 0;
    while j < tokens.len()
        invariant
            j <= tokens.len(),
            tokens.len() < usize::MAX,
            chart.sets.len() == j + 1,
            chart@[0] == initial(g, w)[0],
            w.len() == tokens.len(),
            forall|c: int| 1 <= c <= j ==> #[trigger] chart@[c] == Seq::<Item>::empty(),
        decreases tokens.len() - j,
    {
        let ghost before = chart@;
        chart.sets.push(StateSet::new());
        assert(chart@ =~= before.push(Seq::<Item>::empty()));
        j += 1;
    }
    assert(chart@ =~= initial(g, w));
    proof {
        lemma_initial_well_formed(g, w);
    }
    let mut k: usize = 0;
    while k <= tokens.len()
        invariant
            g == grammar@,
            w == texts_of(tokens@),
            g.len() > 0,
            tokens.len() < usize::MAX,
            k <= tokens.len() + 1,
            well_formed(g, w, chart@),
            columns(g, w, chart@, k as nat) == earley_chart(g, w),
        decreases tokens.len() + 1 - k,
    {
        close_column(&mut chart, grammar, tokens, k);
        k += 1;
    }
    chart
}

} // verus!
