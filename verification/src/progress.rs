//! What holds of a chart while the engine fills it: columns only grow, every
//! item is accounted for by earlier items, and what has been processed is
//! closed under the predictor, the scanner and the completer.

use crate::earley::{advance, insert_all, is_complete, next_symbol, retreat, Item};
use crate::forest::{explains, last_symbol};
use crate::correctness::lemma_forest;
use crate::forest::forest;
use crate::grammar::{are_derivations, derives, start_symbol, Rule};
use crate::machine::{
    admissible, close, columns, completed_at, earley_chart, initial,
    lemma_completions_complete, lemma_completions_sound, lemma_initial_well_formed,
    lemma_insert_all, lemma_predictions_sound, lemma_push_contains, lemma_step_well_formed,
    offers, predictions, room, step, target, well_formed,
};
use crate::term::Symbol;
use vstd::prelude::*;

verus! {

/// Whether `after` has the columns of `before`, each with the items of
/// `before` at their places and possibly more behind them.
pub open spec fn extends(before: Seq<Seq<Item>>, after: Seq<Seq<Item>>) -> bool {
    &&& before.len() == after.len()
    &&& forall|j: int| 0 <= j < before.len() ==> before[j].len() <= (#[trigger] after[j]).len()
    &&& forall|j: int, x: int|
        0 <= j < before.len() && 0 <= x < before[j].len() ==> #[trigger] after[j][x] == before[j][x]
}

/// Whether the item at index `x` of column `e` is accounted for: a fresh item
/// began at `e`; an item behind a terminal has that terminal as the token
/// before `e`, and its predecessor in the column before; an item behind a
/// nonterminal is explained by a completed item that was inserted earlier.
pub open spec fn justified(chart: Seq<Seq<Item>>, w: Seq<Seq<char>>, e: int, x: int) -> bool {
    let it = chart[e][x];
    if it.dot == 0 {
        it.origin == e
    } else {
        match last_symbol(it) {
            None => false,
            Some(Symbol::Terminal(text)) => e > 0 && w[e - 1] == text && chart[e - 1].contains(
                retreat(it),
            ),
            Some(Symbol::Nonterminal(_)) => exists|c: int| explains(chart, e, x, c),
        }
    }
}

/// Whether every item of the chart is accounted for.
pub open spec fn all_justified(chart: Seq<Seq<Item>>, w: Seq<Seq<char>>) -> bool {
    forall|e: int, x: int|
        0 <= e < chart.len() && 0 <= x < chart[e].len() ==> #[trigger] justified(chart, w, e, x)
}

/// An item keeps its first index when its column is extended.
pub proof fn lemma_index_stable(col: Seq<Item>, longer: Seq<Item>, it: Item)
    requires
        col.len() <= longer.len(),
        forall|x: int| 0 <= x < col.len() ==> longer[x] == col[x],
        col.contains(it),
    ensures
        longer.index_of_first(it) == col.index_of_first(it),
        col.index_of_first(it) is Some,
        0 <= col.index_of_first(it).unwrap() < col.len(),
        col[col.index_of_first(it).unwrap()] == it,
{
    col.index_of_first_ensures(it);
    longer.index_of_first_ensures(it);
    let p = col.index_of_first(it).unwrap();
    assert(longer[p] == it);
    let q = longer.index_of_first(it).unwrap();
    if q < p {
        assert(col[q] == longer[q]);
    }
}

/// An explanation stays one when the chart is extended.
pub proof fn lemma_explains_stable(
    before: Seq<Seq<Item>>,
    after: Seq<Seq<Item>>,
    e: int,
    x: int,
    c: int,
)
    requires
        extends(before, after),
        0 <= e < before.len(),
        0 <= x < before[e].len(),
        explains(before, e, x, c),
    ensures
        explains(after, e, x, c),
{
    let it = before[e][x];
    let done = before[e][c];
    let o = done.origin as int;
    assert(after[e][x] == it);
    assert(after[e][c] == done);
    before[o].index_of_first_ensures(retreat(it));
    assert(before[o].len() <= after[o].len());
    assert forall|y: int| 0 <= y < before[o].len() implies after[o][y] == before[o][y] by {}
    lemma_index_stable(before[o], after[o], retreat(it));
}

/// An item that is accounted for stays so when the chart is extended.
pub proof fn lemma_justified_stable(
    before: Seq<Seq<Item>>,
    after: Seq<Seq<Item>>,
    w: Seq<Seq<char>>,
    e: int,
    x: int,
)
    requires
        extends(before, after),
        0 <= e < before.len(),
        0 <= x < before[e].len(),
        justified(before, w, e, x),
    ensures
        justified(after, w, e, x),
{
    let it = before[e][x];
    assert(after[e][x] == it);
    if it.dot > 0 {
        match last_symbol(it) {
            None => {},
            Some(Symbol::Terminal(text)) => {
                let prev = before[e - 1];
                let p = choose|p: int| 0 <= p < prev.len() && prev[p] == retreat(it);
                assert(after[e - 1][p] == retreat(it));
            },
            Some(Symbol::Nonterminal(_)) => {
                let c = choose|c: int| explains(before, e, x, c);
                lemma_explains_stable(before, after, e, x, c);
            },
        }
    }
}

/// Monotonic growth: a step removes and alters nothing. Every column keeps
/// its items at their places, and may get more behind them.
pub proof fn lemma_step_extends(g: Seq<Rule>, w: Seq<Seq<char>>, chart: Seq<Seq<Item>>, k: nat, i: nat)
    requires
        k < chart.len(),
        i < chart[k as int].len(),
    ensures
        extends(chart, step(g, w, chart, k, i)),
{
    let t = target(chart, k, i) as int;
    if t < chart.len() {
        lemma_insert_all(chart[t], offers(g, w, chart, k, i));
    }
}

/// A step leaves every item accounted for.
pub proof fn lemma_step_justified(
    g: Seq<Rule>,
    w: Seq<Seq<char>>,
    chart: Seq<Seq<Item>>,
    k: nat,
    i: nat,
)
    requires
        well_formed(g, w, chart),
        k < chart.len(),
        i < chart[k as int].len(),
        all_justified(chart, w),
    ensures
        all_justified(step(g, w, chart, k, i), w),
{
    let next = step(g, w, chart, k, i);
    let t = target(chart, k, i) as int;
    let items = offers(g, w, chart, k, i);
    let it = chart[k as int][i as int];
    lemma_step_extends(g, w, chart, k, i);
    assert forall|e: int, x: int| 0 <= e < next.len() && 0 <= x < next[e].len() implies #[trigger] justified(
        next,
        w,
        e,
        x,
    ) by {
        if x < chart[e].len() {
            assert(justified(chart, w, e, x));
            lemma_justified_stable(chart, next, w, e, x);
        } else {
            assert(e == t);
            lemma_insert_all(chart[t], items);
            let y = next[e][x];
            assert(items.contains(y));
            assert(next[k as int][i as int] == it);
            match next_symbol(it) {
                Some(Symbol::Nonterminal(name)) => {
                    let n = Symbol::Nonterminal(name);
                    if predictions(g, n, k).contains(y) {
                        lemma_predictions_sound(g, n, k, y);
                    } else {
                        lemma_push_contains(predictions(g, n, k), advance(it), y);
                        assert(y == advance(it));
                        let c = choose|c: int|
                            0 <= c < chart[k as int].len() && is_complete(
                                #[trigger] chart[k as int][c],
                            ) && chart[k as int][c].lhs == n && chart[k as int][c].origin == k;
                        assert(next[e][c] == chart[e][c]);
                        assert(chart[k as int].contains(it));
                        assert(retreat(y) == it);
                        lemma_index_stable(chart[k as int], next[k as int], it);
                        assert(explains(next, e, x, c));
                    }
                },
                Some(Symbol::Terminal(text)) => {
                    assert(y == advance(it));
                    assert(retreat(y) == it);
                    assert(next[k as int].contains(it));
                },
                None => {
                    let o = it.origin as int;
                    let j = lemma_completions_sound(chart[o], it.lhs, y);
                    let parent = chart[o][j];
                    assert(retreat(y) == parent);
                    assert(chart[o].contains(parent));
                    assert(chart[o].len() <= next[o].len());
                    assert forall|z: int| 0 <= z < chart[o].len() implies next[o][z] == chart[o][z] by {}
                    lemma_index_stable(chart[o], next[o], parent);
                    assert(explains(next, e, x, i as int));
                },
            }
        }
    }
}

/// Whether `path` leads from the start symbol to the nonterminal `n` at
/// column `m`: the first item of the path is one of the start symbol that
/// began at column `0`, each item has derived the tokens from its origin to
/// the column where the next one begins, and waits there for the `lhs` of the
/// next one, the last item at column `m` for `n`. A path without items leads
/// to the start symbol at column `0`.
pub open spec fn calls(g: Seq<Rule>, w: Seq<Seq<char>>, path: Seq<Item>, n: Symbol, m: nat) -> bool
    decreases path.len(),
{
    if path.len() == 0 {
        g.len() > 0 && n == start_symbol(g) && m == 0
    } else {
        let it = path.last();
        &&& next_symbol(it) == Some(n)
        &&& m <= w.len()
        &&& admissible(g, it, m)
        &&& derives(g, it.symbols.take(it.dot as int), w.subrange(it.origin as int, m as int))
        &&& calls(g, w, path.drop_last(), it.lhs, it.origin)
    }
}

/// Whether the tokens before column `m` call for the nonterminal `n` there.
pub open spec fn called(g: Seq<Rule>, w: Seq<Seq<char>>, n: Symbol, m: nat) -> bool {
    exists|path: Seq<Item>| calls(g, w, path, n, m)
}

/// Whether an item is valid at column `k`: it is a dotted alternative of the
/// grammar, the symbols before its dot derive the tokens from its origin to
/// `k`, and the tokens before its origin call for its `lhs` there.
pub open spec fn valid(g: Seq<Rule>, w: Seq<Seq<char>>, it: Item, k: nat) -> bool {
    &&& k <= w.len()
    &&& admissible(g, it, k)
    &&& derives(g, it.symbols.take(it.dot as int), w.subrange(it.origin as int, k as int))
    &&& called(g, w, it.lhs, it.origin)
}

/// Whether the `lhs` of every item of the chart is called for at the item's origin.
pub open spec fn all_called(g: Seq<Rule>, w: Seq<Seq<char>>, chart: Seq<Seq<Item>>) -> bool {
    forall|e: int, x: int|
        0 <= e < chart.len() && 0 <= x < chart[e].len() ==> #[trigger] called(
            g,
            w,
            chart[e][x].lhs,
            chart[e][x].origin,
        )
}

/// A step leaves the `lhs` of every item called for at the item's origin.
pub proof fn lemma_step_called(g: Seq<Rule>, w: Seq<Seq<char>>, chart: Seq<Seq<Item>>, k: nat, i: nat)
    requires
        well_formed(g, w, chart),
        all_justified(chart, w),
        all_called(g, w, chart),
        k < chart.len(),
        i < chart[k as int].len(),
    ensures
        all_called(g, w, step(g, w, chart, k, i)),
{
    let next = step(g, w, chart, k, i);
    let t = target(chart, k, i) as int;
    let items = offers(g, w, chart, k, i);
    let it = chart[k as int][i as int];
    lemma_step_extends(g, w, chart, k, i);
    assert(called(g, w, it.lhs, it.origin));
    assert forall|e: int, x: int| 0 <= e < next.len() && 0 <= x < next[e].len() implies #[trigger] called(
        g,
        w,
        next[e][x].lhs,
        next[e][x].origin,
    ) by {
        if x < chart[e].len() {
            assert(next[e][x] == chart[e][x]);
            assert(called(g, w, chart[e][x].lhs, chart[e][x].origin));
        } else {
            lemma_insert_all(chart[t], items);
            let y = next[e][x];
            assert(items.contains(y));
            match next_symbol(it) {
                Some(Symbol::Nonterminal(name)) => {
                    let n = Symbol::Nonterminal(name);
                    if predictions(g, n, k).contains(y) {
                        lemma_predictions_sound(g, n, k, y);
                        lemma_forest(g, w, chart, k as int, i as int);
                        let f = forest(chart, k as int, i as int).unwrap();
                        assert(are_derivations(g, f));
                        let path = choose|path: Seq<Item>| calls(g, w, path, it.lhs, it.origin);
                        let longer = path.push(it);
                        assert(longer.drop_last() =~= path);
                        assert(admissible(g, it, k));
                        assert(calls(g, w, longer, n, k));
                    } else {
                        lemma_push_contains(predictions(g, n, k), advance(it), y);
                    }
                },
                Some(Symbol::Terminal(_)) => {},
                None => {
                    let o = it.origin as int;
                    let j = lemma_completions_sound(chart[o], it.lhs, y);
                    assert(called(g, w, chart[o][j].lhs, chart[o][j].origin));
                },
            }
        }
    }
}

/// Whether the predictions for the nonterminal that the item at index `x`
/// of column `k` waits for, if it waits for one, are all in column `k`.
pub open spec fn predicted(g: Seq<Rule>, chart: Seq<Seq<Item>>, k: int, x: int) -> bool {
    match next_symbol(chart[k][x]) {
        Some(Symbol::Nonterminal(name)) => forall|y: Item| #[trigger]
            predictions(g, Symbol::Nonterminal(name), k as nat).contains(y) ==> chart[k].contains(y),
        _ => true,
    }
}

/// Whether the item at index `x` of column `k`, if it waits for the terminal
/// that is the token at `k`, stands advanced in the next column.
pub open spec fn scan_done(w: Seq<Seq<char>>, chart: Seq<Seq<Item>>, k: int, x: int) -> bool {
    match next_symbol(chart[k][x]) {
        Some(Symbol::Terminal(text)) => k < w.len() && w[k] == text ==> chart[k + 1].contains(
            advance(chart[k][x]),
        ),
        _ => true,
    }
}

/// Whether the item at index `j` of column `o`, if the completed item at
/// index `c` of column `k` began at `o` and is what it waits for, stands
/// advanced in column `k`.
pub open spec fn completed_pair(chart: Seq<Seq<Item>>, k: int, c: int, o: int, j: int) -> bool {
    (next_symbol(chart[k][c]) is None && chart[k][c].origin == o && next_symbol(chart[o][j])
        == Some(chart[k][c].lhs)) ==> chart[k].contains(advance(chart[o][j]))
}

/// Whether the first `i` items of column `k` have all that the predictor, the
/// scanner and the completer make of them in the chart; of a completed item
/// that began at `k` itself, what the completer makes of it and of the first
/// `i` items.
pub open spec fn closed_upto(
    g: Seq<Rule>,
    w: Seq<Seq<char>>,
    chart: Seq<Seq<Item>>,
    k: int,
    i: int,
) -> bool {
    &&& forall|x: int| 0 <= x < i ==> #[trigger] predicted(g, chart, k, x)
    &&& forall|x: int| 0 <= x < i ==> #[trigger] scan_done(w, chart, k, x)
    &&& forall|c: int, o: int, j: int|
        0 <= c < i && 0 <= o < k && 0 <= j < chart[o].len() ==> #[trigger] completed_pair(
            chart,
            k,
            c,
            o,
            j,
        )
    &&& forall|c: int, j: int| 0 <= c < i && 0 <= j < i ==> #[trigger] completed_pair(chart, k, c, k, j)
}

/// Whether the chart is well formed, holds no item twice in a column, has
/// every item accounted for and called for, and has its first `k` columns closed.
pub open spec fn settled(g: Seq<Rule>, w: Seq<Seq<char>>, chart: Seq<Seq<Item>>, k: nat) -> bool {
    &&& well_formed(g, w, chart)
    &&& k <= chart.len()
    &&& all_justified(chart, w)
    &&& all_called(g, w, chart)
    &&& forall|j: int| 0 <= j < chart.len() ==> (#[trigger] chart[j]).no_duplicates()
    &&& forall|j: int| 0 <= j < k ==> #[trigger] closed_upto(g, w, chart, j, chart[j].len() as int)
}

/// What holds while column `k` is being closed and its first `i` items have
/// been processed.
pub open spec fn maintained(
    g: Seq<Rule>,
    w: Seq<Seq<char>>,
    chart: Seq<Seq<Item>>,
    k: nat,
    i: nat,
) -> bool {
    &&& settled(g, w, chart, k)
    &&& k < chart.len()
    &&& i <= chart[k as int].len()
    &&& closed_upto(g, w, chart, k as int, i as int)
}

/// What a column holds, it holds in every extension of the chart.
pub proof fn lemma_extends_contains(before: Seq<Seq<Item>>, after: Seq<Seq<Item>>, j: int, y: Item)
    requires
        extends(before, after),
        0 <= j < before.len(),
        before[j].contains(y),
    ensures
        after[j].contains(y),
{
    let x = choose|x: int| 0 <= x < before[j].len() && before[j][x] == y;
    assert(after[j][x] == y);
}

/// An extension of an extension is an extension.
pub proof fn lemma_extends_transitive(a: Seq<Seq<Item>>, b: Seq<Seq<Item>>, c: Seq<Seq<Item>>)
    requires
        extends(a, b),
        extends(b, c),
    ensures
        extends(a, c),
{
    assert forall|j: int| 0 <= j < a.len() implies a[j].len() <= (#[trigger] c[j]).len() by {
        assert(a[j].len() <= b[j].len());
    }
    assert forall|j: int, x: int| 0 <= j < a.len() && 0 <= x < a[j].len() implies #[trigger] c[j][x]
        == a[j][x] by {
        assert(b[j][x] == a[j][x]);
        assert(a[j].len() <= b[j].len());
    }
}

/// Monotonic growth: closing a column removes and alters nothing. During the
/// whole loop every column keeps its items at their places, and may get more
/// behind them.
pub proof fn lemma_close_extends(g: Seq<Rule>, w: Seq<Seq<char>>, chart: Seq<Seq<Item>>, k: nat, i: nat)
    requires
        well_formed(g, w, chart),
        k < chart.len(),
        i <= chart[k as int].len(),
    ensures
        extends(chart, close(g, w, chart, k, i)),
        well_formed(g, w, close(g, w, chart, k, i)),
    decreases room(g, k, chart[k as int]) + chart[k as int].len() - i,
{
    if i < chart[k as int].len() {
        let next = step(g, w, chart, k, i);
        lemma_step_well_formed(g, w, chart, k, i);
        lemma_step_extends(g, w, chart, k, i);
        lemma_close_extends(g, w, next, k, i + 1);
        lemma_extends_transitive(chart, next, close(g, w, next, k, i + 1));
    }
}

/// What was closed stays closed when later columns are extended.
pub proof fn lemma_closed_stable(
    g: Seq<Rule>,
    w: Seq<Seq<char>>,
    before: Seq<Seq<Item>>,
    after: Seq<Seq<Item>>,
    k: int,
    i: int,
)
    requires
        extends(before, after),
        0 <= k < before.len(),
        0 <= i <= before[k].len(),
        before.len() == w.len() + 1,
        forall|o: int| 0 <= o < k ==> after[o] == before[o],
        closed_upto(g, w, before, k, i),
    ensures
        closed_upto(g, w, after, k, i),
{
    assert forall|x: int| 0 <= x < i implies #[trigger] predicted(g, after, k, x) by {
        assert(predicted(g, before, k, x));
        assert(after[k][x] == before[k][x]);
        match next_symbol(before[k][x]) {
            Some(Symbol::Nonterminal(name)) => {
                assert forall|y: Item| #[trigger]
                    predictions(g, Symbol::Nonterminal(name), k as nat).contains(
                        y,
                    ) implies after[k].contains(y) by {
                    lemma_extends_contains(before, after, k, y);
                }
            },
            _ => {},
        }
    }
    assert forall|x: int| 0 <= x < i implies #[trigger] scan_done(w, after, k, x) by {
        assert(scan_done(w, before, k, x));
        assert(after[k][x] == before[k][x]);
        match next_symbol(before[k][x]) {
            Some(Symbol::Terminal(text)) => {
                if k < w.len() && w[k] == text {
                    lemma_extends_contains(before, after, k + 1, advance(before[k][x]));
                }
            },
            _ => {},
        }
    }
    assert forall|c: int, o: int, j: int|
        0 <= c < i && 0 <= o < k && 0 <= j < after[o].len() implies #[trigger] completed_pair(
        after,
        k,
        c,
        o,
        j,
    ) by {
        assert(completed_pair(before, k, c, o, j));
        assert(after[k][c] == before[k][c]);
        if before[k].contains(advance(before[o][j])) {
            lemma_extends_contains(before, after, k, advance(before[o][j]));
        }
    }
    assert forall|c: int, j: int| 0 <= c < i && 0 <= j < i implies #[trigger] completed_pair(
        after,
        k,
        c,
        k,
        j,
    ) by {
        assert(completed_pair(before, k, c, k, j));
        assert(after[k][c] == before[k][c]);
        assert(after[k][j] == before[k][j]);
        if before[k].contains(advance(before[k][j])) {
            lemma_extends_contains(before, after, k, advance(before[k][j]));
        }
    }
}

/// After the item at index `i` of column `k` has been processed, the first
/// `i + 1` items of the column are closed.
pub proof fn lemma_step_closed(g: Seq<Rule>, w: Seq<Seq<char>>, chart: Seq<Seq<Item>>, k: nat, i: nat)
    requires
        maintained(g, w, chart, k, i),
        i < chart[k as int].len(),
    ensures
        closed_upto(g, w, step(g, w, chart, k, i), k as int, i as int + 1),
{
    let next = step(g, w, chart, k, i);
    let t = target(chart, k, i) as int;
    let items = offers(g, w, chart, k, i);
    let it = chart[k as int][i as int];
    let kk = k as int;
    let ii = i as int;
    lemma_step_extends(g, w, chart, k, i);
    lemma_closed_stable(g, w, chart, next, kk, ii);
    assert(t < chart.len() ==> next[t] == insert_all(chart[t], items));
    if t < chart.len() {
        lemma_insert_all(chart[t], items);
    }
    assert(next[kk][ii] == it);
    assert(admissible(g, it, k));
    assert(predicted(g, next, kk, ii)) by {
        match next_symbol(it) {
            Some(Symbol::Nonterminal(name)) => {
                let n = Symbol::Nonterminal(name);
                assert forall|y: Item| #[trigger] predictions(g, n, k).contains(y) implies next[kk].contains(
                    y,
                ) by {
                    let z = choose|z: int|
                        0 <= z < predictions(g, n, k).len() && predictions(g, n, k)[z] == y;
                    assert(items[z] == y);
                }
            },
            _ => {},
        }
    }
    assert(scan_done(w, next, kk, ii)) by {
        match next_symbol(it) {
            Some(Symbol::Terminal(text)) => {
                if k < w.len() && w[kk] == text {
                    assert(items[0] == advance(it));
                }
            },
            _ => {},
        }
    }
    assert forall|c: int, o: int, j: int|
        0 <= c < i + 1 && 0 <= o < k && 0 <= j < next[o].len() implies #[trigger] completed_pair(
        next,
        kk,
        c,
        o,
        j,
    ) by {
        if c == i {
            assert(next[o] == chart[o]);
            if next_symbol(it) is None && it.origin == o && next_symbol(chart[o][j]) == Some(it.lhs) {
                lemma_completions_complete(chart[o], it.lhs, j);
                let z = choose|z: int| 0 <= z < items.len() && items[z] == advance(chart[o][j]);
                assert(next[kk].contains(items[z]));
            }
        }
    }
    assert forall|c: int, j: int| 0 <= c < i + 1 && 0 <= j < i + 1 implies #[trigger] completed_pair(
        next,
        kk,
        c,
        kk,
        j,
    ) by {
        assert(next[kk][c] == chart[kk][c]);
        assert(next[kk][j] == chart[kk][j]);
        let done = chart[kk][c];
        let parent = chart[kk][j];
        if next_symbol(done) is None && done.origin == k && next_symbol(parent) == Some(done.lhs) {
            if c == i {
                lemma_completions_complete(chart[kk], it.lhs, j);
                let z = choose|z: int| 0 <= z < items.len() && items[z] == advance(parent);
                assert(next[kk].contains(items[z]));
            } else if j == i {
                assert(admissible(g, done, k));
                assert(is_complete(done));
                assert(completed_at(chart[kk], done.lhs, k));
                let z = predictions(g, done.lhs, k).len() as int;
                assert(items[z] == advance(it));
                assert(next[kk].contains(items[z]));
            } else {
                assert(completed_pair(chart, kk, c, kk, j));
                lemma_extends_contains(chart, next, kk, advance(parent));
            }
        }
    }
}

/// A step keeps what holds while a column is being closed, for one more item.
pub proof fn lemma_step_maintained(
    g: Seq<Rule>,
    w: Seq<Seq<char>>,
    chart: Seq<Seq<Item>>,
    k: nat,
    i: nat,
)
    requires
        maintained(g, w, chart, k, i),
        i < chart[k as int].len(),
    ensures
        maintained(g, w, step(g, w, chart, k, i), k, i + 1),
        extends(chart, step(g, w, chart, k, i)),
{
    let next = step(g, w, chart, k, i);
    let t = target(chart, k, i) as int;
    lemma_step_well_formed(g, w, chart, k, i);
    lemma_step_extends(g, w, chart, k, i);
    lemma_step_justified(g, w, chart, k, i);
    lemma_step_called(g, w, chart, k, i);
    lemma_step_closed(g, w, chart, k, i);
    assert forall|j: int| 0 <= j < next.len() implies (#[trigger] next[j]).no_duplicates() by {
        assert(chart[j].no_duplicates());
        if j == t {
            lemma_insert_all(chart[t], offers(g, w, chart, k, i));
        }
    }
    assert forall|j: int| 0 <= j < k implies #[trigger] closed_upto(
        g,
        w,
        next,
        j,
        next[j].len() as int,
    ) by {
        assert(closed_upto(g, w, chart, j, chart[j].len() as int));
        lemma_closed_stable(g, w, chart, next, j, chart[j].len() as int);
    }
}

/// Closing column `k` leaves the chart settled up to and including that
/// column, and removes and alters nothing.
pub proof fn lemma_close_settled(g: Seq<Rule>, w: Seq<Seq<char>>, chart: Seq<Seq<Item>>, k: nat, i: nat)
    requires
        maintained(g, w, chart, k, i),
    ensures
        settled(g, w, close(g, w, chart, k, i), k + 1),
        extends(chart, close(g, w, chart, k, i)),
    decreases room(g, k, chart[k as int]) + chart[k as int].len() - i,
{
    if i < chart[k as int].len() {
        let next = step(g, w, chart, k, i);
        lemma_step_maintained(g, w, chart, k, i);
        lemma_step_well_formed(g, w, chart, k, i);
        lemma_close_settled(g, w, next, k, i + 1);
        lemma_extends_transitive(chart, next, close(g, w, next, k, i + 1));
    } else {
        assert forall|j: int| 0 <= j < k + 1 implies #[trigger] closed_upto(
            g,
            w,
            chart,
            j,
            chart[j].len() as int,
        ) by {}
    }
}

/// Closing the columns from `k` on leaves the whole chart settled, and
/// removes and alters nothing.
pub proof fn lemma_columns_settled(g: Seq<Rule>, w: Seq<Seq<char>>, chart: Seq<Seq<Item>>, k: nat)
    requires
        settled(g, w, chart, k),
    ensures
        settled(g, w, columns(g, w, chart, k), w.len() + 1),
        extends(chart, columns(g, w, chart, k)),
    decreases w.len() + 1 - k,
{
    if k <= w.len() {
        let closed = close(g, w, chart, k, 0);
        lemma_close_settled(g, w, chart, k, 0);
        lemma_columns_settled(g, w, closed, k + 1);
        lemma_extends_transitive(chart, closed, columns(g, w, closed, k + 1));
    }
}

/// The chart of a grammar with productions is settled in all its columns,
/// and holds in column `0` the predictions for the start symbol.
pub proof fn lemma_chart_settled(g: Seq<Rule>, w: Seq<Seq<char>>)
    requires
        g.len() > 0,
    ensures
        settled(g, w, earley_chart(g, w), w.len() + 1),
        extends(initial(g, w), earley_chart(g, w)),
{
    let first = initial(g, w);
    let items = predictions(g, start_symbol(g), 0);
    lemma_initial_well_formed(g, w);
    lemma_insert_all(Seq::empty(), items);
    assert forall|e: int, x: int| 0 <= e < first.len() && 0 <= x < first[e].len() implies #[trigger] justified(
        first,
        w,
        e,
        x,
    ) by {
        lemma_predictions_sound(g, start_symbol(g), 0, first[e][x]);
    }
    assert forall|e: int, x: int| 0 <= e < first.len() && 0 <= x < first[e].len() implies #[trigger] called(
        g,
        w,
        first[e][x].lhs,
        first[e][x].origin,
    ) by {
        lemma_predictions_sound(g, start_symbol(g), 0, first[e][x]);
        assert(calls(g, w, Seq::<Item>::empty(), start_symbol(g), 0));
    }
    assert forall|j: int| 0 <= j < first.len() implies (#[trigger] first[j]).no_duplicates() by {}
    lemma_columns_settled(g, w, first, 0);
}

} // verus!
