use earley::engine::{
    build_chart, close_column, earley_completer, earley_init, earley_predictor, earley_scanner,
    has_completed, process,
};
use earley::forest::{build_forest, build_tree, find_explaining, find_predecessor};
use earley::parser::find_root;
use earley::{
    Chart, Expression, Grammar, ParseError, ParseNode, Position, Production, State, StateSet, Term,
};

fn nonterminal(name: &str) -> Term {
    Term::Nonterminal(String::from(name))
}

fn terminal(text: &str) -> Term {
    Term::Terminal(String::from(text))
}

fn item(lhs: &str, symbols: Vec<Term>, dot: usize, origin: usize) -> State {
    State { lhs: nonterminal(lhs), symbols, position: Position { dot, origin } }
}

fn words(texts: &[&str]) -> Vec<String> {
    texts.iter().map(|t| String::from(*t)).collect()
}

fn sums() -> Grammar {
    Grammar {
        productions: vec![
            Production {
                lhs: nonterminal("S"),
                alternatives: vec![
                    Expression { terms: vec![nonterminal("S"), terminal("+"), nonterminal("M")] },
                    Expression { terms: vec![nonterminal("M")] },
                ],
            },
            Production {
                lhs: nonterminal("M"),
                alternatives: vec![
                    Expression { terms: vec![terminal("1")] },
                    Expression { terms: vec![terminal("2")] },
                ],
            },
        ],
    }
}

#[test]
fn next_symbol_is_the_symbol_at_the_dot() {
    let start = item("S", vec![nonterminal("S"), terminal("+")], 0, 3);
    assert_eq!(start.next_symbol(), Some(&nonterminal("S")));
    let middle = start.advance();
    assert_eq!(middle, item("S", vec![nonterminal("S"), terminal("+")], 1, 3));
    assert_eq!(middle.next_symbol(), Some(&terminal("+")));
    assert!(!middle.is_complete());
    let end = middle.advance();
    assert_eq!(end.next_symbol(), None);
    assert!(end.is_complete());
    assert_eq!(end.position, Position { dot: 2, origin: 3 });
}

#[test]
fn item_with_an_empty_body_is_complete() {
    let empty = State::new(nonterminal("A"), vec![], 4);
    assert!(empty.is_complete());
    assert_eq!(empty.next_symbol(), None);
    assert_eq!(empty.position, Position { dot: 0, origin: 4 });
}

#[test]
fn precedes_tells_the_item_one_dot_earlier() {
    let earlier = item("S", vec![nonterminal("M"), terminal("+")], 1, 0);
    assert!(earlier.precedes(&item("S", vec![nonterminal("M"), terminal("+")], 2, 0)));
    assert!(!earlier.precedes(&item("S", vec![nonterminal("M"), terminal("+")], 2, 1)));
    assert!(!earlier.precedes(&item("S", vec![nonterminal("M"), terminal("+")], 1, 0)));
    assert!(!earlier.precedes(&item("M", vec![nonterminal("M"), terminal("+")], 2, 0)));
    assert!(!item("S", vec![], 0, 0).precedes(&item("S", vec![], 0, 0)));
}

#[test]
fn state_set_new_is_empty() {
    let set = StateSet::new();
    assert_eq!(set.len(), 0);
    assert!(set.state.is_empty());
}

#[test]
fn insert_reports_whether_the_item_is_new() {
    let mut set = StateSet::new();
    assert!(set.insert(item("S", vec![nonterminal("M")], 0, 0)));
    assert!(set.insert(item("S", vec![nonterminal("M")], 1, 0)));
    assert!(!set.insert(item("S", vec![nonterminal("M")], 0, 0)));
    assert!(set.insert(item("S", vec![nonterminal("M")], 0, 1)));
    assert!(set.insert(item("S", vec![terminal("M")], 0, 0)));
    assert_eq!(set.len(), 4);
    assert_eq!(set.state[0], item("S", vec![nonterminal("M")], 0, 0));
    assert_eq!(set.state[1], item("S", vec![nonterminal("M")], 1, 0));
    assert!(set.contains(&item("S", vec![nonterminal("M")], 0, 1)));
    assert!(!set.contains(&item("S", vec![nonterminal("M")], 1, 1)));
    assert_eq!(set.position(&item("S", vec![nonterminal("M")], 0, 1)), Some(2));
    assert_eq!(set.position(&item("M", vec![nonterminal("M")], 0, 1)), None);
}

#[test]
fn insert_all_keeps_the_first_of_equal_items() {
    let mut set = StateSet::new();
    set.insert(item("A", vec![], 0, 0));
    set.insert_all(&vec![
        item("B", vec![], 0, 0),
        item("A", vec![], 0, 0),
        item("B", vec![], 0, 0),
        item("C", vec![], 0, 0),
    ]);
    assert_eq!(
        set.state,
        vec![
            item("A", vec![], 0, 0),
            item("B", vec![], 0, 0),
            item("C", vec![], 0, 0)
        ]
    );
}

#[test]
fn predictor_offers_every_alternative_in_order() {
    let grammar = sums();
    assert_eq!(
        earley_predictor(&nonterminal("S"), 2, &grammar),
        vec![
            item("S", vec![nonterminal("S"), terminal("+"), nonterminal("M")], 0, 2),
            item("S", vec![nonterminal("M")], 0, 2)
        ]
    );
    assert_eq!(
        earley_predictor(&nonterminal("M"), 0, &grammar),
        vec![item("M", vec![terminal("1")], 0, 0), item("M", vec![terminal("2")], 0, 0)]
    );
    assert!(earley_predictor(&nonterminal("X"), 0, &grammar).is_empty());
    assert!(earley_predictor(&terminal("S"), 0, &grammar).is_empty());
}

#[test]
fn scanner_advances_on_the_matching_token_only() {
    let input = words(&["1", "+", "2"]);
    let waiting = item("S", vec![nonterminal("S"), terminal("+"), nonterminal("M")], 1, 0);
    assert_eq!(
        earley_scanner(1, &input, &waiting),
        vec![item("S", vec![nonterminal("S"), terminal("+"), nonterminal("M")], 2, 0)]
    );
    assert!(earley_scanner(0, &input, &waiting).is_empty());
    assert!(earley_scanner(3, &input, &waiting).is_empty());
    let at_nonterminal = item("S", vec![nonterminal("1")], 0, 0);
    assert!(earley_scanner(0, &input, &at_nonterminal).is_empty());
    let done = item("M", vec![terminal("1")], 1, 0);
    assert!(earley_scanner(1, &input, &done).is_empty());
}

#[test]
fn completer_advances_the_items_that_wait() {
    let mut parents = StateSet::new();
    parents.insert(item("S", vec![nonterminal("S"), terminal("+"), nonterminal("M")], 0, 0));
    parents.insert(item("S", vec![nonterminal("M")], 0, 0));
    parents.insert(item("M", vec![terminal("1")], 0, 0));
    parents.insert(item("T", vec![terminal("x"), nonterminal("M")], 1, 0));
    let finished = item("M", vec![terminal("1")], 1, 0);
    assert_eq!(
        earley_completer(&parents, &finished),
        vec![
            item("S", vec![nonterminal("M")], 1, 0),
            item("T", vec![terminal("x"), nonterminal("M")], 2, 0)
        ]
    );
    let other = item("Q", vec![], 0, 0);
    assert!(earley_completer(&parents, &other).is_empty());
}

#[test]
fn has_completed_looks_for_an_empty_span() {
    let mut set = StateSet::new();
    set.insert(item("A", vec![terminal("a")], 1, 0));
    set.insert(item("B", vec![], 0, 1));
    set.insert(item("C", vec![terminal("c")], 0, 1));
    assert!(has_completed(&set, &nonterminal("B"), 1));
    assert!(!has_completed(&set, &nonterminal("B"), 0));
    assert!(!has_completed(&set, &nonterminal("A"), 1));
    assert!(has_completed(&set, &nonterminal("A"), 0));
    assert!(!has_completed(&set, &nonterminal("C"), 1));
}

#[test]
fn init_predicts_the_start_symbol() {
    assert!(earley_init(&Grammar { productions: vec![] }).is_none());
    let first = earley_init(&sums()).unwrap();
    assert_eq!(
        first.state,
        vec![
            item("S", vec![nonterminal("S"), terminal("+"), nonterminal("M")], 0, 0),
            item("S", vec![nonterminal("M")], 0, 0)
        ]
    );
}

#[test]
fn chart_has_one_column_more_than_tokens() {
    let chart = build_chart(&sums(), &words(&["1", "+", "2"]));
    assert_eq!(chart.sets.len(), 4);
    assert_eq!(
        chart.sets[0].state,
        vec![
            item("S", vec![nonterminal("S"), terminal("+"), nonterminal("M")], 0, 0),
            item("S", vec![nonterminal("M")], 0, 0),
            item("M", vec![terminal("1")], 0, 0),
            item("M", vec![terminal("2")], 0, 0)
        ]
    );
    assert_eq!(
        chart.sets[1].state,
        vec![
            item("M", vec![terminal("1")], 1, 0),
            item("S", vec![nonterminal("M")], 1, 0),
            item("S", vec![nonterminal("S"), terminal("+"), nonterminal("M")], 1, 0)
        ]
    );
    assert_eq!(
        chart.sets[2].state,
        vec![
            item("S", vec![nonterminal("S"), terminal("+"), nonterminal("M")], 2, 0),
            item("M", vec![terminal("1")], 0, 2),
            item("M", vec![terminal("2")], 0, 2)
        ]
    );
    assert_eq!(
        chart.sets[3].state,
        vec![
            item("M", vec![terminal("2")], 1, 2),
            item("S", vec![nonterminal("S"), terminal("+"), nonterminal("M")], 3, 0),
            item("S", vec![nonterminal("S"), terminal("+"), nonterminal("M")], 1, 0)
        ]
    );
}

#[test]
fn chart_of_an_empty_grammar_has_no_columns() {
    let chart = build_chart(&Grammar { productions: vec![] }, &words(&["a"]));
    assert!(chart.sets.is_empty());
}

#[test]
fn chart_of_a_rejected_input_stops_growing() {
    let chart = build_chart(&sums(), &words(&["+", "1"]));
    assert_eq!(chart.sets.len(), 3);
    assert_eq!(chart.sets[0].len(), 4);
    assert_eq!(chart.sets[1].len(), 0);
    assert_eq!(chart.sets[2].len(), 0);
    assert_eq!(find_root(&chart.sets[2], &nonterminal("S")), None);
}

#[test]
fn columns_hold_no_item_twice() {
    let grammar = Grammar {
        productions: vec![
            Production {
                lhs: nonterminal("E"),
                alternatives: vec![
                    Expression { terms: vec![nonterminal("E"), terminal("-"), nonterminal("E")] },
                    Expression { terms: vec![terminal("n")] },
                    Expression { terms: vec![terminal("n")] },
                ],
            },
            Production {
                lhs: nonterminal("E"),
                alternatives: vec![Expression { terms: vec![terminal("n")] }],
            },
        ],
    };
    let chart = build_chart(&grammar, &words(&["n", "-", "n"]));
    for set in &chart.sets {
        for (i, a) in set.state.iter().enumerate() {
            for b in &set.state[i + 1..] {
                assert_ne!(a, b);
            }
        }
    }
    assert_eq!(chart.sets[0].len(), 2);
}

#[test]
fn processing_only_adds_items() {
    let grammar = sums();
    let input = words(&["1"]);
    let mut chart = Chart {
        sets: vec![earley_init(&grammar).unwrap(), StateSet::new()],
    };
    let mut seen: Vec<Vec<State>> = vec![chart.sets[0].state.clone(), vec![]];
    let mut i = 0;
    while i < chart.sets[0].len() {
        process(&mut chart, &grammar, &input, 0, i);
        for k in 0..2 {
            assert!(chart.sets[k].len() >= seen[k].len());
            assert_eq!(&chart.sets[k].state[..seen[k].len()], &seen[k][..]);
            seen[k] = chart.sets[k].state.clone();
        }
        i += 1;
    }
    assert_eq!(chart.sets[0].len(), 4);
    assert_eq!(chart.sets[1].state, vec![item("M", vec![terminal("1")], 1, 0)]);
    close_column(&mut chart, &grammar, &input, 1);
    assert_eq!(&chart.sets[1].state[..1], &seen[1][..]);
    assert_eq!(chart.sets[1].len(), 3);
    assert_eq!(find_root(&chart.sets[1], &nonterminal("S")), Some(1));
}

#[test]
fn find_root_wants_a_completed_start_item_from_column_zero() {
    let mut set = StateSet::new();
    set.insert(item("S", vec![nonterminal("M")], 0, 0));
    set.insert(item("S", vec![nonterminal("M")], 1, 1));
    set.insert(item("M", vec![terminal("1")], 1, 0));
    assert_eq!(find_root(&set, &nonterminal("S")), None);
    set.insert(item("S", vec![nonterminal("M")], 1, 0));
    set.insert(item("S", vec![terminal("1")], 1, 0));
    assert_eq!(find_root(&set, &nonterminal("S")), Some(3));
    assert_eq!(find_root(&set, &nonterminal("M")), Some(2));
}

#[test]
fn tree_is_read_off_a_chart() {
    let chart = build_chart(&sums(), &words(&["1", "+", "2"]));
    let m2 = ParseNode {
        term: nonterminal("M"),
        children: vec![ParseNode { term: terminal("2"), children: vec![] }],
    };
    assert_eq!(build_tree(&chart, 3, 0), Ok(m2));
    assert_eq!(find_predecessor(&chart.sets[2], &chart.sets[3].state[0]), Some(2));
    assert_eq!(find_explaining(&chart, 3, 1), Some((0, 0)));
    assert_eq!(find_explaining(&chart, 3, 0), None);
    let partial = build_forest(&chart, 2, 0).unwrap();
    assert_eq!(partial.len(), 2);
    assert_eq!(partial[0].term, nonterminal("S"));
    assert_eq!(partial[1], ParseNode { term: terminal("+"), children: vec![] });
    assert_eq!(build_forest(&chart, 0, 0), Ok(vec![]));
}

#[test]
fn unexplained_item_is_an_inconsistency() {
    let mut last = StateSet::new();
    last.insert(item("S", vec![nonterminal("M")], 1, 0));
    let chart = Chart { sets: vec![StateSet::new(), last] };
    assert_eq!(find_root(&chart.sets[1], &nonterminal("S")), Some(0));
    assert_eq!(build_tree(&chart, 1, 0), Err(ParseError::InternalInconsistency));
    assert_eq!(build_forest(&chart, 1, 0), Err(ParseError::InternalInconsistency));
    assert_ne!(ParseError::InternalInconsistency, ParseError::Rejected);
}

#[test]
fn tree_of_a_missing_or_unfinished_item_is_an_inconsistency() {
    let chart = build_chart(&sums(), &words(&["1"]));
    assert_eq!(build_tree(&chart, 5, 0), Err(ParseError::InternalInconsistency));
    assert_eq!(build_tree(&chart, 1, 9), Err(ParseError::InternalInconsistency));
    assert_eq!(build_tree(&chart, 0, 0), Err(ParseError::InternalInconsistency));
    assert_eq!(build_forest(&chart, 2, 0), Err(ParseError::InternalInconsistency));
}

#[test]
fn terminal_without_predecessor_is_an_inconsistency() {
    let mut first = StateSet::new();
    first.insert(item("A", vec![terminal("a")], 1, 0));
    let mut second = StateSet::new();
    second.insert(item("A", vec![terminal("a")], 1, 0));
    let chart = Chart { sets: vec![first, second] };
    assert_eq!(build_forest(&chart, 0, 0), Err(ParseError::InternalInconsistency));
    assert_eq!(build_forest(&chart, 1, 0), Err(ParseError::InternalInconsistency));
}

#[test]
fn furthest_is_the_last_column_with_an_item() {
    let grammar = sums();
    assert_eq!(build_chart(&grammar, &words(&["1", "+", "2"])).furthest(), Some(3));
    assert_eq!(build_chart(&grammar, &words(&["1", "+", "+"])).furthest(), Some(2));
    assert_eq!(build_chart(&grammar, &words(&["+"])).furthest(), Some(0));
    assert_eq!(build_chart(&Grammar { productions: vec![] }, &words(&["1"])).furthest(), None);
    let no_alternative = Grammar {
        productions: vec![Production { lhs: nonterminal("S"), alternatives: vec![] }],
    };
    assert_eq!(build_chart(&no_alternative, &words(&["1"])).furthest(), None);
}

#[test]
fn clones_are_equal_to_what_they_were_made_of() {
    let grammar = sums();
    assert_eq!(grammar.clone(), grammar);
    let chart = build_chart(&grammar, &words(&["1", "+", "2"]));
    assert_eq!(chart.clone(), chart);
    let tree = build_tree(&chart, 3, 1).unwrap();
    assert_eq!(tree.clone(), tree);
    assert_eq!(tree.children.len(), 3);
}
