//! The engine as a state machine over charts: what the predictor, the
//! scanner and the completer offer to a column, the step that processes one
//! item, and the chart that the steps arrive at.

use crate::earley::{advance, insert, insert_all, is_complete, next_symbol, Item};
use crate::grammar::{is_rule, start_symbol, Rule};
use crate::term::Symbol;
use vstd::prelude::*;

verus! {

/// One item for each alternative, with nothing matched yet and `k` as origin.
pub open spec fn fresh_items(lhs: Symbol, alternatives: Seq<Seq<Symbol>>, k: nat) -> Seq<Item> {
    Seq::new(
        alternatives.len(),
        |a: int| Item { lhs: lhs, symbols: alternatives[a], dot: 0, origin: k },
    )
}

/// What the predictor offers for the nonterminal `n` at column `k`: a fresh
/// item for every alternative of every production of `n`, in the grammar's order.
pub open spec fn predictions(g: Seq<Rule>, n: Symbol, k: nat) -> Seq<Item>
    decreases g.len(),
{
    if g.len() == 0 || !(n is Nonterminal) {
        Seq::empty()
    } else if g.last().lhs == n {
        predictions(g.drop_last(), n, k) + fresh_items(n, g.last().alternatives, k)
    } else {
        predictions(g.drop_last(), n, k)
    }
}

/// What the scanner offers to column `k + 1` for an item of column `k`: the
/// item advanced, if the token at `k` is the terminal at its dot.
pub open spec fn scanned(w: Seq<Seq<char>>, k: nat, it: Item) -> Seq<Item> {
    if k < w.len() && next_symbol(it) == Some(Symbol::Terminal(w[k as int])) {
        seq![advance(it)]
    } else {
        Seq::empty()
    }
}

/// What the completer offers once `n` has been recognised: every item of
/// `parents` that waits for `n`, advanced, in the order of `parents`.
pub open spec fn completions(parents: Seq<Item>, n: Symbol) -> Seq<Item>
    decreases parents.len(),
{
    if parents.len() == 0 {
        Seq::empty()
    } else if next_symbol(parents.last()) == Some(n) {
        completions(parents.drop_last(), n).push(advance(parents.last()))
    } else {
        completions(parents.drop_last(), n)
    }
}

/// Whether the column holds a completed item for `n` that began at `k`.
pub open spec fn completed_at(col: Seq<Item>, n: Symbol, k: nat) -> bool {
    exists|c: int|
        0 <= c < col.len() && is_complete(#[trigger] col[c]) && col[c].lhs == n && col[c].origin
            == k
}

/// What is offered to column `k` for an item `it` of that column that waits
/// for the nonterminal `n`: the predictions for `n` and, where the column has
/// already completed `n` over the empty span at `k`, the item advanced past it.
pub open spec fn expansions(g: Seq<Rule>, col: Seq<Item>, it: Item, n: Symbol, k: nat) -> Seq<
    Item,
> {
    if completed_at(col, n, k) {
        predictions(g, n, k).push(advance(it))
    } else {
        predictions(g, n, k)
    }
}

/// The column that receives what the item at index `i` of column `k` gives
/// rise to: the next column for an item that waits for a terminal, else `k` itself.
pub open spec fn target(chart: Seq<Seq<Item>>, k: nat, i: nat) -> nat {
    match next_symbol(chart[k as int][i as int]) {
        Some(Symbol::Terminal(_)) => k + 1,
        _ => k,
    }
}

/// What processing the item at index `i` of column `k` offers to its target
/// column: the predictor's items where it waits for a nonterminal, the
/// scanner's where it waits for a terminal, the completer's where it is completed.
pub open spec fn offers(g: Seq<Rule>, w: Seq<Seq<char>>, chart: Seq<Seq<Item>>, k: nat, i: nat) -> Seq<
    Item,
> {
    let it = chart[k as int][i as int];
    match next_symbol(it) {
        Some(Symbol::Nonterminal(name)) => expansions(
            g,
            chart[k as int],
            it,
            Symbol::Nonterminal(name),
            k,
        ),
        Some(Symbol::Terminal(_)) => scanned(w, k, it),
        None => if it.origin < chart.len() {
            completions(chart[it.origin as int], it.lhs)
        } else {
            Seq::empty()
        },
    }
}

/// The chart after the item at index `i` of column `k` has been processed.
pub open spec fn step(g: Seq<Rule>, w: Seq<Seq<char>>, chart: Seq<Seq<Item>>, k: nat, i: nat) -> Seq<
    Seq<Item>,
> {
    let t = target(chart, k, i) as int;
    if t < chart.len() {
        chart.update(t, insert_all(chart[t], offers(g, w, chart, k, i)))
    } else {
        chart
    }
}

/// Whether an item may stand in column `k`: it is a dotted alternative of the
/// grammar and began at or before `k`.
pub open spec fn admissible(g: Seq<Rule>, it: Item, k: nat) -> bool {
    &&& is_rule(g, it.lhs, it.symbols)
    &&& it.dot <= it.symbols.len()
    &&& it.origin <= k
}

/// Whether a chart has one column for each input position and only
/// admissible items in them.
pub open spec fn well_formed(g: Seq<Rule>, w: Seq<Seq<char>>, chart: Seq<Seq<Item>>) -> bool {
    &&& chart.len() == w.len() + 1
    &&& forall|j: int, x: int|
        0 <= j < chart.len() && 0 <= x < chart[j].len() ==> admissible(
            g,
            #[trigger] chart[j][x],
            j as nat,
        )
}

/// How many origins below `upto` have the item `lhs -> body`, dotted at `d`, not yet in `col`.
pub open spec fn absent_origins(col: Seq<Item>, lhs: Symbol, body: Seq<Symbol>, d: nat, upto: nat) -> nat
    decreases upto,
{
    if upto == 0 {
        0
    } else {
        let rest = absent_origins(col, lhs, body, d, (upto - 1) as nat);
        if col.contains(Item { lhs: lhs, symbols: body, dot: d, origin: (upto - 1) as nat }) {
            rest
        } else {
            rest + 1
        }
    }
}

/// The same count over all dots below `upto` and all origins up to `k`.
pub open spec fn absent_dots(col: Seq<Item>, lhs: Symbol, body: Seq<Symbol>, upto: nat, k: nat) -> nat
    decreases upto,
{
    if upto == 0 {
        0
    } else {
        absent_dots(col, lhs, body, (upto - 1) as nat, k) + absent_origins(
            col,
            lhs,
            body,
            (upto - 1) as nat,
            k + 1,
        )
    }
}

/// The same count over the first `upto` alternatives of a production.
pub open spec fn absent_alternatives(
    col: Seq<Item>,
    lhs: Symbol,
    alternatives: Seq<Seq<Symbol>>,
    upto: nat,
    k: nat,
) -> nat
    decreases upto,
{
    if upto == 0 {
        0
    } else {
        absent_alternatives(col, lhs, alternatives, (upto - 1) as nat, k) + absent_dots(
            col,
            lhs,
            alternatives[upto as int - 1],
            alternatives[upto as int - 1].len() + 1,
            k,
        )
    }
}

/// The same count over the first `upto` productions of the grammar.
pub open spec fn absent_rules(col: Seq<Item>, g: Seq<Rule>, upto: nat, k: nat) -> nat
    decreases upto,
{
    if upto == 0 {
        0
    } else {
        absent_rules(col, g, (upto - 1) as nat, k) + absent_alternatives(
            col,
            g[upto as int - 1].lhs,
            g[upto as int - 1].alternatives,
            g[upto as int - 1].alternatives.len(),
            k,
        )
    }
}

/// The room left in column `k`: how many dotted alternatives of the grammar,
/// counted once for each place that the grammar gives them, it does not hold yet.
pub open spec fn room(g: Seq<Rule>, k: nat, col: Seq<Item>) -> nat {
    absent_rules(col, g, g.len(), k)
}

/// What a column holds after an item was appended: what it held, and the item.
pub proof fn lemma_push_contains(col: Seq<Item>, x: Item, y: Item)
    ensures
        col.push(x).contains(y) <==> (col.contains(y) || x == y),
{
    if col.contains(y) {
        let i = choose|i: int| 0 <= i < col.len() && col[i] == y;
        assert(col.push(x)[i] == y);
    }
    if x == y {
        assert(col.push(x)[col.len() as int] == y);
    }
    if col.push(x).contains(y) {
        let i = choose|i: int| 0 <= i < col.push(x).len() && col.push(x)[i] == y;
        if i < col.len() {
            assert(col[i] == y);
        }
    }
}

/// Appending an item never raises the count over origins, and lowers it
/// where the item is one of those counted and was absent.
proof fn lemma_absent_origins(col: Seq<Item>, x: Item, lhs: Symbol, body: Seq<Symbol>, d: nat, upto: nat)
    ensures
        absent_origins(col.push(x), lhs, body, d, upto) <= absent_origins(col, lhs, body, d, upto),
        !col.contains(x) && x.lhs == lhs && x.symbols == body && x.dot == d && x.origin < upto
            ==> absent_origins(col.push(x), lhs, body, d, upto) < absent_origins(
            col,
            lhs,
            body,
            d,
            upto,
        ),
    decreases upto,
{
    if upto > 0 {
        lemma_absent_origins(col, x, lhs, body, d, (upto - 1) as nat);
        lemma_push_contains(
            col,
            x,
            Item { lhs: lhs, symbols: body, dot: d, origin: (upto - 1) as nat },
        );
    }
}

/// The same for the count over dots.
proof fn lemma_absent_dots(col: Seq<Item>, x: Item, lhs: Symbol, body: Seq<Symbol>, upto: nat, k: nat)
    ensures
        absent_dots(col.push(x), lhs, body, upto, k) <= absent_dots(col, lhs, body, upto, k),
        !col.contains(x) && x.lhs == lhs && x.symbols == body && x.dot < upto && x.origin <= k
            ==> absent_dots(col.push(x), lhs, body, upto, k) < absent_dots(col, lhs, body, upto, k),
    decreases upto,
{
    if upto > 0 {
        lemma_absent_dots(col, x, lhs, body, (upto - 1) as nat, k);
        lemma_absent_origins(col, x, lhs, body, (upto - 1) as nat, k + 1);
    }
}

/// The same for the count over the alternatives of a production, of which
/// `a` is the item's.
proof fn lemma_absent_alternatives(
    col: Seq<Item>,
    x: Item,
    lhs: Symbol,
    alternatives: Seq<Seq<Symbol>>,
    upto: nat,
    k: nat,
    a: int,
)
    requires
        upto <= alternatives.len(),
    ensures
        absent_alternatives(col.push(x), lhs, alternatives, upto, k) <= absent_alternatives(
            col,
            lhs,
            alternatives,
            upto,
            k,
        ),
        !col.contains(x) && x.lhs == lhs && 0 <= a < upto && x.symbols == alternatives[a] && x.dot
            <= x.symbols.len() && x.origin <= k ==> absent_alternatives(
            col.push(x),
            lhs,
            alternatives,
            upto,
            k,
        ) < absent_alternatives(col, lhs, alternatives, upto, k),
    decreases upto,
{
    if upto > 0 {
        lemma_absent_alternatives(col, x, lhs, alternatives, (upto - 1) as nat, k, a);
        lemma_absent_dots(
            col,
            x,
            lhs,
            alternatives[upto as int - 1],
            alternatives[upto as int - 1].len() + 1,
            k,
        );
    }
}

/// The same for the count over the productions of the grammar, of which `p`
/// is the item's, with its alternative `a`.
proof fn lemma_absent_rules(col: Seq<Item>, x: Item, g: Seq<Rule>, upto: nat, k: nat, p: int, a: int)
    requires
        upto <= g.len(),
    ensures
        absent_rules(col.push(x), g, upto, k) <= absent_rules(col, g, upto, k),
        !col.contains(x) && 0 <= p < upto && 0 <= a < g[p].alternatives.len() && x.lhs == g[p].lhs
            && x.symbols == g[p].alternatives[a] && x.dot <= x.symbols.len() && x.origin <= k
            ==> absent_rules(col.push(x), g, upto, k) < absent_rules(col, g, upto, k),
    decreases upto,
{
    if upto > 0 {
        lemma_absent_rules(col, x, g, (upto - 1) as nat, k, p, a);
        lemma_absent_alternatives(
            col,
            x,
            g[upto as int - 1].lhs,
            g[upto as int - 1].alternatives,
            g[upto as int - 1].alternatives.len(),
            k,
            a,
        );
    }
}

/// Offering an admissible item to a column never lets its length and its
/// room together grow.
pub proof fn lemma_room_insert(g: Seq<Rule>, k: nat, col: Seq<Item>, x: Item)
    requires
        admissible(g, x, k),
    ensures
        room(g, k, insert(col, x)) + insert(col, x).len() <= room(g, k, col) + col.len(),
{
    if !col.contains(x) {
        let (p, a) = choose|p: int, a: int|
            0 <= p < g.len() && 0 <= a < g[p].alternatives.len() && g[p].lhs == x.lhs
                && #[trigger] g[p].alternatives[a] == x.symbols;
        lemma_absent_rules(col, x, g, g.len(), k, p, a);
    }
}

/// The same for a sequence of admissible items offered in turn.
pub proof fn lemma_room_insert_all(g: Seq<Rule>, k: nat, col: Seq<Item>, items: Seq<Item>)
    requires
        forall|j: int| 0 <= j < items.len() ==> admissible(g, #[trigger] items[j], k),
    ensures
        room(g, k, insert_all(col, items)) + insert_all(col, items).len() <= room(g, k, col)
            + col.len(),
    decreases items.len(),
{
    if items.len() > 0 {
        lemma_room_insert_all(g, k, col, items.drop_last());
        lemma_room_insert(g, k, insert_all(col, items.drop_last()), items.last());
    }
}

/// What offering a sequence of items does to a column: the column stays as a
/// prefix, what follows it are offered items that it did not hold, every
/// offered item is in the result, and no item comes to stand twice.
pub proof fn lemma_insert_all(col: Seq<Item>, items: Seq<Item>)
    ensures
        col.len() <= insert_all(col, items).len(),
        forall|i: int| 0 <= i < col.len() ==> insert_all(col, items)[i] == col[i],
        forall|i: int|
            col.len() <= i < insert_all(col, items).len() ==> items.contains(
                #[trigger] insert_all(col, items)[i],
            ) && !col.contains(insert_all(col, items)[i]),
        forall|j: int| 0 <= j < items.len() ==> insert_all(col, items).contains(#[trigger] items[j]),
        col.no_duplicates() ==> insert_all(col, items).no_duplicates(),
    decreases items.len(),
{
    if items.len() > 0 {
        let front = items.drop_last();
        let mid = insert_all(col, front);
        let r = insert_all(col, items);
        lemma_insert_all(col, front);
        assert forall|i: int| col.len() <= i < r.len() implies items.contains(#[trigger] r[i])
            && !col.contains(r[i]) by {
            if i < mid.len() {
                let j = choose|j: int| 0 <= j < front.len() && front[j] == mid[i];
                assert(items[j] == r[i]);
            } else {
                assert(r[i] == items.last());
                assert(items[items.len() - 1] == r[i]);
                if col.contains(r[i]) {
                    let c = choose|c: int| 0 <= c < col.len() && col[c] == r[i];
                    assert(mid[c] == r[i]);
                }
            }
        }
        assert forall|j: int| 0 <= j < items.len() implies r.contains(#[trigger] items[j]) by {
            if j < front.len() {
                assert(mid.contains(front[j]));
                let c = choose|c: int| 0 <= c < mid.len() && mid[c] == front[j];
                assert(r[c] == items[j]);
            } else {
                lemma_push_contains(mid, items.last(), items.last());
            }
        }
    }
}

/// What the predictor offers are fresh items of alternatives of `n`.
pub proof fn lemma_predictions_sound(g: Seq<Rule>, n: Symbol, k: nat, x: Item)
    requires
        predictions(g, n, k).contains(x),
    ensures
        x.lhs == n,
        x.dot == 0,
        x.origin == k,
        is_rule(g, n, x.symbols),
    decreases g.len(),
{
    if g.len() > 0 && n is Nonterminal {
        let front = predictions(g.drop_last(), n, k);
        let i = choose|i: int| 0 <= i < predictions(g, n, k).len() && predictions(g, n, k)[i] == x;
        if i < front.len() {
            assert(front[i] == x);
            lemma_predictions_sound(g.drop_last(), n, k, x);
            let (p, a) = choose|p: int, a: int|
                0 <= p < g.drop_last().len() && 0 <= a < g.drop_last()[p].alternatives.len()
                    && g.drop_last()[p].lhs == n && #[trigger] g.drop_last()[p].alternatives[a]
                    == x.symbols;
            assert(g[p].alternatives[a] == x.symbols);
        } else {
            let a = i - front.len();
            assert(g[g.len() - 1].alternatives[a] == x.symbols);
        }
    }
}

/// The predictor offers a fresh item for every alternative of `n`.
pub proof fn lemma_predictions_complete(g: Seq<Rule>, n: Symbol, k: nat, p: int, a: int)
    requires
        n is Nonterminal,
        0 <= p < g.len(),
        0 <= a < g[p].alternatives.len(),
        g[p].lhs == n,
    ensures
        predictions(g, n, k).contains(
            Item { lhs: n, symbols: g[p].alternatives[a], dot: 0, origin: k },
        ),
    decreases g.len(),
{
    let x = Item { lhs: n, symbols: g[p].alternatives[a], dot: 0, origin: k };
    let front = predictions(g.drop_last(), n, k);
    if p < g.len() - 1 {
        lemma_predictions_complete(g.drop_last(), n, k, p, a);
        let i = choose|i: int| 0 <= i < front.len() && front[i] == x;
        assert(predictions(g, n, k)[i] == x);
    } else {
        assert(predictions(g, n, k)[front.len() + a] == x);
    }
}

/// What the completer offers are items of `parents` that waited for `n`, advanced.
pub proof fn lemma_completions_sound(parents: Seq<Item>, n: Symbol, x: Item) -> (j: int)
    requires
        completions(parents, n).contains(x),
    ensures
        0 <= j < parents.len(),
        next_symbol(parents[j]) == Some(n),
        x == advance(parents[j]),
    decreases parents.len(),
{
    if parents.len() == 0 {
        0
    } else {
        let front = completions(parents.drop_last(), n);
        if next_symbol(parents.last()) == Some(n) {
            lemma_push_contains(front, advance(parents.last()), x);
            if front.contains(x) {
                lemma_completions_sound(parents.drop_last(), n, x)
            } else {
                parents.len() - 1
            }
        } else {
            lemma_completions_sound(parents.drop_last(), n, x)
        }
    }
}

/// The completer offers every item of `parents` that waits for `n`, advanced.
pub proof fn lemma_completions_complete(parents: Seq<Item>, n: Symbol, j: int)
    requires
        0 <= j < parents.len(),
        next_symbol(parents[j]) == Some(n),
    ensures
        completions(parents, n).contains(advance(parents[j])),
    decreases parents.len(),
{
    let front = completions(parents.drop_last(), n);
    if j < parents.len() - 1 {
        lemma_completions_complete(parents.drop_last(), n, j);
        if next_symbol(parents.last()) == Some(n) {
            lemma_push_contains(front, advance(parents.last()), advance(parents[j]));
        }
    } else {
        lemma_push_contains(front, advance(parents.last()), advance(parents[j]));
    }
}

/// What a step offers may stand in its target column.
pub proof fn lemma_offers_admissible(
    g: Seq<Rule>,
    w: Seq<Seq<char>>,
    chart: Seq<Seq<Item>>,
    k: nat,
    i: nat,
)
    requires
        well_formed(g, w, chart),
        k < chart.len(),
        i < chart[k as int].len(),
    ensures
        forall|j: int|
            0 <= j < offers(g, w, chart, k, i).len() ==> admissible(
                g,
                #[trigger] offers(g, w, chart, k, i)[j],
                target(chart, k, i),
            ),
{
    let it = chart[k as int][i as int];
    let items = offers(g, w, chart, k, i);
    assert(admissible(g, it, k));
    assert forall|j: int| 0 <= j < items.len() implies admissible(
        g,
        #[trigger] items[j],
        target(chart, k, i),
    ) by {
        let x = items[j];
        assert(items.contains(x));
        match next_symbol(it) {
            Some(Symbol::Nonterminal(name)) => {
                let n = Symbol::Nonterminal(name);
                if j < predictions(g, n, k).len() {
                    assert(predictions(g, n, k)[j] == x);
                    lemma_predictions_sound(g, n, k, x);
                }
            },
            Some(Symbol::Terminal(_)) => {},
            None => {
                let o = it.origin as int;
                let c = lemma_completions_sound(chart[o], it.lhs, x);
                assert(admissible(g, chart[o][c], o as nat));
            },
        }
    }
}

/// A step keeps the chart well formed and never lets the length and the room
/// of the column being processed together grow.
pub proof fn lemma_step_well_formed(
    g: Seq<Rule>,
    w: Seq<Seq<char>>,
    chart: Seq<Seq<Item>>,
    k: nat,
    i: nat,
)
    requires
        well_formed(g, w, chart),
        k < chart.len(),
        i < chart[k as int].len(),
    ensures
        well_formed(g, w, step(g, w, chart, k, i)),
        chart[k as int].len() <= step(g, w, chart, k, i)[k as int].len(),
        room(g, k, step(g, w, chart, k, i)[k as int]) + step(g, w, chart, k, i)[k as int].len()
            <= room(g, k, chart[k as int]) + chart[k as int].len(),
{
    let t = target(chart, k, i) as int;
    let items = offers(g, w, chart, k, i);
    let next = step(g, w, chart, k, i);
    lemma_offers_admissible(g, w, chart, k, i);
    if t < chart.len() {
        lemma_insert_all(chart[t], items);
        lemma_room_insert_all(g, t as nat, chart[t], items);
        assert forall|j: int, x: int| 0 <= j < next.len() && 0 <= x < next[j].len() implies admissible(
            g,
            #[trigger] next[j][x],
            j as nat,
        ) by {
            if j == t {
                if x < chart[t].len() {
                    assert(next[j][x] == chart[j][x]);
                } else {
                    let c = choose|c: int| 0 <= c < items.len() && items[c] == next[j][x];
                    assert(admissible(g, items[c], t as nat));
                }
            } else {
                assert(next[j][x] == chart[j][x]);
            }
        }
    }
}

/// The chart after all items of column `k` from index `i` on have been
/// processed in turn, those that the processing adds included.
pub open spec fn close(g: Seq<Rule>, w: Seq<Seq<char>>, chart: Seq<Seq<Item>>, k: nat, i: nat) -> Seq<
    Seq<Item>,
>
    decreases room(g, k, chart[k as int]) + chart[k as int].len() - i,
    when well_formed(g, w, chart) && k < chart.len() && i <= chart[k as int].len()
    via close_decreases
{
    if i >= chart[k as int].len() {
        chart
    } else {
        close(g, w, step(g, w, chart, k, i), k, i + 1)
    }
}

/// Processing an item leaves less to do: the room of the column and the
/// number of its items that wait to be processed together shrink.
#[via_fn]
proof fn close_decreases(g: Seq<Rule>, w: Seq<Seq<char>>, chart: Seq<Seq<Item>>, k: nat, i: nat) {
    if i < chart[k as int].len() {
        lemma_step_well_formed(g, w, chart, k, i);
    }
}

/// The chart after the columns from `k` on have been closed in increasing order.
pub open spec fn columns(g: Seq<Rule>, w: Seq<Seq<char>>, chart: Seq<Seq<Item>>, k: nat) -> Seq<
    Seq<Item>,
>
    decreases w.len() + 1 - k,
{
    if k > w.len() {
        chart
    } else {
        columns(g, w, close(g, w, chart, k, 0), k + 1)
    }
}

/// The chart before any item has been processed: the predictions for the
/// start symbol in column `0`, and nothing in the other columns.
pub open spec fn initial(g: Seq<Rule>, w: Seq<Seq<char>>) -> Seq<Seq<Item>> {
    Seq::new(
        w.len() + 1,
        |j: int|
            if j == 0 {
                insert_all(Seq::empty(), predictions(g, start_symbol(g), 0))
            } else {
                Seq::empty()
            },
    )
}

/// The chart of the grammar `g` over the token texts `w`. A grammar without
/// productions has a chart without columns.
pub open spec fn earley_chart(g: Seq<Rule>, w: Seq<Seq<char>>) -> Seq<Seq<Item>> {
    if g.len() == 0 {
        Seq::empty()
    } else {
        columns(g, w, initial(g, w), 0)
    }
}

/// The chart from which the engine starts is well formed.
pub proof fn lemma_initial_well_formed(g: Seq<Rule>, w: Seq<Seq<char>>)
    ensures
        well_formed(g, w, initial(g, w)),
{
    let chart = initial(g, w);
    let items = predictions(g, start_symbol(g), 0);
    lemma_insert_all(Seq::empty(), items);
    assert forall|j: int, x: int| 0 <= j < chart.len() && 0 <= x < chart[j].len() implies admissible(
        g,
        #[trigger] chart[j][x],
        j as nat,
    ) by {
        lemma_predictions_sound(g, start_symbol(g), 0, chart[j][x]);
    }
}

} // verus!
