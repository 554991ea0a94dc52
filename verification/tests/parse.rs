use earley::{parse, Expression, Grammar, ParseError, ParseNode, Production, Term};

fn nt(name: &str) -> Term {
    Term::Nonterminal(String::from(name))
}

fn tm(text: &str) -> Term {
    Term::Terminal(String::from(text))
}

fn production(lhs: &str, alternatives: Vec<Vec<Term>>) -> Production {
    Production {
        lhs: nt(lhs),
        alternatives: alternatives
            .into_iter()
            .map(|terms| Expression { terms })
            .collect(),
    }
}

fn tokens(texts: &[&str]) -> Vec<String> {
    texts.iter().map(|t| String::from(*t)).collect()
}

fn leaf(text: &str) -> ParseNode {
    ParseNode { term: tm(text), children: vec![] }
}

fn node(name: &str, children: Vec<ParseNode>) -> ParseNode {
    ParseNode { term: nt(name), children }
}

fn leaves(tree: &ParseNode, out: &mut Vec<String>) {
    if let Term::Terminal(text) = &tree.term {
        out.push(text.clone());
    }
    for child in &tree.children {
        leaves(child, out);
    }
}

fn sum_grammar() -> Grammar {
    Grammar {
        productions: vec![
            production("S", vec![vec![nt("S"), tm("+"), nt("M")], vec![nt("M")]]),
            production("M", vec![vec![tm("1")], vec![tm("2")]]),
        ],
    }
}

fn minus_grammar() -> Grammar {
    Grammar {
        productions: vec![production(
            "E",
            vec![vec![nt("E"), tm("-"), nt("E")], vec![tm("n")]],
        )],
    }
}

#[test]
fn sum_of_two_is_parsed_into_its_tree() {
    let tree = parse(&sum_grammar(), &tokens(&["1", "+", "2"]));
    let expected = node(
        "S",
        vec![
            node("S", vec![node("M", vec![leaf("1")])]),
            leaf("+"),
            node("M", vec![leaf("2")]),
        ],
    );
    assert_eq!(tree, Ok(expected));
}

#[test]
fn single_operand_is_parsed() {
    let tree = parse(&sum_grammar(), &tokens(&["2"]));
    assert_eq!(tree, Ok(node("S", vec![node("M", vec![leaf("2")])])));
}

#[test]
fn grammar_without_productions_is_refused() {
    let grammar = Grammar { productions: vec![] };
    assert_eq!(parse(&grammar, &tokens(&[])), Err(ParseError::EmptyGrammar));
    assert_eq!(
        parse(&grammar, &tokens(&["a", "b"])),
        Err(ParseError::EmptyGrammar)
    );
}

#[test]
fn token_outside_the_language_is_rejected() {
    let grammar = Grammar {
        productions: vec![production("A", vec![vec![tm("x")]])],
    };
    assert_eq!(parse(&grammar, &tokens(&["y"])), Err(ParseError::Rejected));
    assert_eq!(parse(&grammar, &tokens(&[])), Err(ParseError::Rejected));
    assert_eq!(
        parse(&grammar, &tokens(&["x", "x"])),
        Err(ParseError::Rejected)
    );
    assert_eq!(
        parse(&grammar, &tokens(&["x"])),
        Ok(node("A", vec![leaf("x")]))
    );
}

#[test]
fn token_must_match_the_terminal_exactly() {
    let grammar = Grammar {
        productions: vec![production("A", vec![vec![tm("xy")]])],
    };
    assert_eq!(
        parse(&grammar, &tokens(&["x", "y"])),
        Err(ParseError::Rejected)
    );
    assert_eq!(
        parse(&grammar, &tokens(&["xy"])),
        Ok(node("A", vec![leaf("xy")]))
    );
}

#[test]
fn left_recursion_is_parsed() {
    let input = tokens(&["n", "-", "n", "-", "n"]);
    let tree = parse(&minus_grammar(), &input).unwrap();
    assert_eq!(tree.term, nt("E"));
    let mut read = vec![];
    leaves(&tree, &mut read);
    assert_eq!(read, input);
}

#[test]
fn ambiguity_is_resolved_by_the_earliest_explanation() {
    let input = tokens(&["n", "-", "n", "-", "n"]);
    let tree = parse(&minus_grammar(), &input).unwrap();
    let n = || node("E", vec![leaf("n")]);
    let expected = node(
        "E",
        vec![
            node("E", vec![n(), leaf("-"), n()]),
            leaf("-"),
            n(),
        ],
    );
    assert_eq!(tree, expected);
}

#[test]
fn empty_input_is_derived_by_an_empty_alternative() {
    let grammar = Grammar {
        productions: vec![production("S", vec![vec![]])],
    };
    let tree = parse(&grammar, &tokens(&[])).unwrap();
    assert_eq!(tree, node("S", vec![]));
    let mut read = vec![];
    leaves(&tree, &mut read);
    assert!(read.is_empty());
}

#[test]
fn nonterminal_completed_over_the_empty_span_is_passed() {
    let grammar = Grammar {
        productions: vec![
            production("S", vec![vec![nt("A"), nt("A")]]),
            production("A", vec![vec![], vec![tm("a")]]),
        ],
    };
    assert_eq!(
        parse(&grammar, &tokens(&[])),
        Ok(node("S", vec![node("A", vec![]), node("A", vec![])]))
    );
    let one = parse(&grammar, &tokens(&["a"])).unwrap();
    let mut read = vec![];
    leaves(&one, &mut read);
    assert_eq!(read, tokens(&["a"]));
    let two = parse(&grammar, &tokens(&["a", "a"]));
    assert_eq!(
        two,
        Ok(node(
            "S",
            vec![node("A", vec![leaf("a")]), node("A", vec![leaf("a")])]
        ))
    );
    assert_eq!(
        parse(&grammar, &tokens(&["a", "a", "a"])),
        Err(ParseError::Rejected)
    );
}

#[test]
fn cyclic_grammar_yields_a_finite_tree() {
    let grammar = Grammar {
        productions: vec![production("A", vec![vec![nt("A")], vec![tm("a")]])],
    };
    assert_eq!(
        parse(&grammar, &tokens(&["a"])),
        Ok(node("A", vec![leaf("a")]))
    );
}

#[test]
fn nonterminal_without_production_never_completes() {
    let grammar = Grammar {
        productions: vec![production("S", vec![vec![nt("X")], vec![tm("s")]])],
    };
    assert_eq!(parse(&grammar, &tokens(&[])), Err(ParseError::Rejected));
    assert_eq!(
        parse(&grammar, &tokens(&["s"])),
        Ok(node("S", vec![leaf("s")]))
    );
}

#[test]
fn alternatives_of_a_later_production_of_the_start_symbol_count() {
    let grammar = Grammar {
        productions: vec![
            production("S", vec![vec![tm("a")]]),
            production("S", vec![vec![tm("b")]]),
        ],
    };
    assert_eq!(
        parse(&grammar, &tokens(&["b"])),
        Ok(node("S", vec![leaf("b")]))
    );
}

#[test]
fn repeated_parses_yield_the_same_tree() {
    let input = tokens(&["n", "-", "n", "-", "n", "-", "n"]);
    let first = parse(&minus_grammar(), &input);
    let second = parse(&minus_grammar(), &input);
    assert!(first.is_ok());
    assert_eq!(first, second);
}

#[test]
fn leaves_of_a_tree_are_the_tokens() {
    let grammar = Grammar {
        productions: vec![
            production(
                "Sum",
                vec![vec![nt("Sum"), tm("+"), nt("Product")], vec![nt("Product")]],
            ),
            production(
                "Product",
                vec![vec![nt("Product"), tm("*"), nt("Factor")], vec![nt("Factor")]],
            ),
            production(
                "Factor",
                vec![vec![tm("("), nt("Sum"), tm(")")], vec![tm("1")], vec![tm("2")]],
            ),
        ],
    };
    let input = tokens(&["1", "+", "(", "2", "*", "1", "+", "2", ")"]);
    let tree = parse(&grammar, &input).unwrap();
    let mut read = vec![];
    leaves(&tree, &mut read);
    assert_eq!(read, input);
    assert_eq!(
        parse(&grammar, &tokens(&["1", "+", "(", "2"])),
        Err(ParseError::Rejected)
    );
}

#[test]
fn terminal_as_start_symbol_derives_nothing() {
    let grammar = Grammar {
        productions: vec![Production {
            lhs: tm("S"),
            alternatives: vec![Expression { terms: vec![tm("a")] }],
        }],
    };
    assert_eq!(parse(&grammar, &tokens(&["a"])), Err(ParseError::Rejected));
    assert_eq!(parse(&grammar, &tokens(&["S"])), Err(ParseError::Rejected));
}
