use earley::{Error, Term};

#[test]
fn parse_complete() {
    assert_eq!(
        Ok(Term::Nonterminal(String::from("dna"))),
        Term::from_str("<dna>")
    );
}

#[test]
fn parse_error() {
    let incomplete = Term::from_str("<dna");
    assert!(incomplete.is_err());

    let error = incomplete.unwrap_err();
    match error {
        Error::ParseError(ref s) => assert!(s.starts_with("Parsing error:")),
        _ => panic!("Incomplete term should be parse error"),
    }
}

#[test]
fn parse_incomplete() {
    let result = Term::from_str("");
    assert!(result.is_err(), "{:?} should be err", result);
    match result {
        Err(e) => match e {
            Error::ParseIncomplete(_) => (),
            e => panic!("should should be Error::ParseIncomplete: {:?}", e),
        },
        Ok(s) => panic!("should should be Error::ParseIncomplete: {}", s.to_string()),
    }
}

#[test]
fn parse_error_display() {
    let incomplete = Term::from_str("<dna");
    assert!(incomplete.is_err());

    let error = incomplete.unwrap_err().to_string();
    assert!(!error.is_empty());
}

#[test]
fn parse_whitespace_nonterm() {
    let some_space = String::from(" some space ");
    assert_eq!(
        Ok(Term::Nonterminal(some_space.clone())),
        Term::from_str(&format!("<{}>", some_space))
    );
}

#[test]
fn parse_whitespace_term() {
    let some_space = String::from(" some space ");
    assert_eq!(
        Ok(Term::Terminal(some_space.clone())),
        Term::from_str(&format!("\"{}\"", some_space))
    );
}

#[test]
fn single_quotes_delimit_a_terminal() {
    assert_eq!(
        Term::from_str("'+'"),
        Ok(Term::Terminal(String::from("+")))
    );
    assert_eq!(
        Term::from_str("'say \"hi\"'"),
        Ok(Term::Terminal(String::from("say \"hi\"")))
    );
}

#[test]
fn white_space_may_follow_a_term() {
    assert_eq!(
        Term::from_str("<dna> \t\r\n"),
        Ok(Term::Nonterminal(String::from("dna")))
    );
    assert_eq!(Term::from_str("\"a\" "), Ok(Term::Terminal(String::from("a"))));
}

#[test]
fn empty_names_and_texts_are_terms() {
    assert_eq!(Term::from_str("<>"), Ok(Term::Nonterminal(String::new())));
    assert_eq!(Term::from_str("\"\""), Ok(Term::Terminal(String::new())));
}

#[test]
fn text_runs_to_the_first_closing_delimiter() {
    assert_eq!(
        Term::from_str("<a>b>"),
        Err(Error::ParseError(String::from("Parsing error: not a term")))
    );
    assert_eq!(
        Term::from_str("\"a\"b\""),
        Err(Error::ParseError(String::from("Parsing error: not a term")))
    );
    assert_eq!(
        Term::from_str("<a<b>"),
        Ok(Term::Nonterminal(String::from("a<b")))
    );
}

#[test]
fn other_texts_are_parse_errors() {
    let error = Error::ParseError(String::from("Parsing error: not a term"));
    assert_eq!(Term::from_str("dna"), Err(error.clone()));
    assert_eq!(Term::from_str(" <dna>"), Err(error.clone()));
    assert_eq!(Term::from_str("<"), Err(error.clone()));
    assert_eq!(Term::from_str("\"dna"), Err(error.clone()));
    assert_eq!(Term::from_str("'dna\""), Err(error.clone()));
    assert_eq!(Term::from_str("<dna> x"), Err(error.clone()));
    assert_eq!(Term::from_str("<d\u{e9}"), Err(error));
}

#[test]
fn only_the_empty_text_is_incomplete() {
    let incomplete = Error::ParseIncomplete(String::from("Data error: insufficient size"));
    let error = Error::ParseError(String::from("Parsing error: not a term"));
    assert_eq!(Term::from_str(""), Err(incomplete));
    assert_eq!(Term::from_str("\""), Err(error.clone()));
    assert_eq!(Term::from_str("'"), Err(error.clone()));
    assert_eq!(Term::from_str(" "), Err(error));
}

#[test]
fn characters_outside_ascii_are_kept() {
    assert_eq!(
        Term::from_str("<\u{e9}t\u{e9}>"),
        Ok(Term::Nonterminal(String::from("\u{e9}t\u{e9}")))
    );
}

#[test]
fn text_of_a_term_is_delimited() {
    assert_eq!(Term::Nonterminal(String::from("dna")).to_string(), "<dna>");
    assert_eq!(Term::Terminal(String::from("a b")).to_string(), "\"a b\"");
    assert_eq!(
        Term::from_str(&Term::Nonterminal(String::from("x y")).to_string()),
        Ok(Term::Nonterminal(String::from("x y")))
    );
}

#[test]
fn error_gives_its_message() {
    assert_eq!(
        Error::ParseIncomplete(String::from("short")).to_string(),
        "short"
    );
    assert_eq!(Error::ParseError(String::from("wrong")).to_string(), "wrong");
    assert_ne!(
        Error::ParseError(String::from("x")),
        Error::ParseIncomplete(String::from("x"))
    );
}

#[test]
fn terms_are_equal_by_variant_and_value() {
    assert_eq!(Term::Terminal(String::from("a")), Term::Terminal(String::from("a")));
    assert_ne!(Term::Terminal(String::from("a")), Term::Nonterminal(String::from("a")));
    assert_ne!(Term::Terminal(String::from("a")), Term::Terminal(String::from("b")));
    let t = Term::Nonterminal(String::from("n"));
    assert_eq!(t.clone(), t);
}

#[test]
fn str_parse_reads_a_term() {
    assert_eq!("<dna>".parse::<Term>(), Ok(Term::Nonterminal(String::from("dna"))));
    assert_eq!(
        "<dna".parse::<Term>(),
        Err(Error::ParseError(String::from("Parsing error: not a term")))
    );
}
