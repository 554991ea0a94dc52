//! Terms of a grammar: terminals and nonterminals, and their textual form.

use vstd::prelude::*;
use vstd::std_specs::cmp::PartialEqSpecImpl;
use vstd::string::*;

verus! {

/// What a term is in contracts: its variant and the characters of its text.
pub enum Symbol {
    Terminal(Seq<char>),
    Nonterminal(Seq<char>),
}

/// A Term can represent a Terminal or Nonterminal node
#[derive(Debug)]
pub enum Term {
    Terminal(String),
    Nonterminal(String),
}

impl View for Term {
    type V = Symbol;

    open spec fn view(&self) -> Symbol {
        match self {
            Term::Terminal(s) => Symbol::Terminal(s@),
            Term::Nonterminal(s) => Symbol::Nonterminal(s@),
        }
    }
}

impl Clone for Term {
    fn clone(&self) -> (r: Term)
        ensures
            r@ == self@,
    {
        match self {
            Term::Terminal(s) => Term::Terminal(s.clone()),
            Term::Nonterminal(s) => Term::Nonterminal(s.clone()),
        }
    }
}

impl PartialEq for Term {
    fn eq(&self, other: &Term) -> (r: bool) {
        match (self, other) {
            (Term::Terminal(a), Term::Terminal(b)) => *a == *b,
            (Term::Nonterminal(a), Term::Nonterminal(b)) => *a == *b,
            _ => false,
        }
    }
}

impl PartialEqSpecImpl for Term {
    open spec fn obeys_eq_spec() -> bool {
        true
    }

    open spec fn eq_spec(&self, other: &Term) -> bool {
        self@ == other@
    }
}

/// Why a text could not be read as a term.
#[derive(Debug)]
pub enum Error {
    /// The text is not a term; the message begins with `Parsing error:`.
    ParseError(String),
    /// The text is empty: there is nothing to tell a term from a mistake by.
    ParseIncomplete(String),
}

/// What an [`Error`] is in contracts.
pub enum ErrorView {
    ParseError(Seq<char>),
    ParseIncomplete(Seq<char>),
}

impl View for Error {
    type V = ErrorView;

    open spec fn view(&self) -> ErrorView {
        match self {
            Error::ParseError(m) => ErrorView::ParseError(m@),
            Error::ParseIncomplete(m) => ErrorView::ParseIncomplete(m@),
        }
    }
}

impl Clone for Error {
    fn clone(&self) -> (r: Error)
        ensures
            r@ == self@,
    {
        match self {
            Error::ParseError(m) => Error::ParseError(m.clone()),
            Error::ParseIncomplete(m) => Error::ParseIncomplete(m.clone()),
        }
    }
}

impl PartialEq for Error {
    fn eq(&self, other: &Error) -> (r: bool) {
        match (self, other) {
            (Error::ParseError(a), Error::ParseError(b)) => *a == *b,
            (Error::ParseIncomplete(a), Error::ParseIncomplete(b)) => *a == *b,
            _ => false,
        }
    }
}

impl PartialEqSpecImpl for Error {
    open spec fn obeys_eq_spec() -> bool {
        true
    }

    open spec fn eq_spec(&self, other: &Error) -> bool {
        self@ == other@
    }
}

impl Error {
    /// The message that the error carries.
    pub fn to_string(&self) -> (r: String)
        ensures
            self@ == ErrorView::ParseError(r@) || self@ == ErrorView::ParseIncomplete(r@),
    {
        match self {
            Error::ParseError(m) => m.clone(),
            Error::ParseIncomplete(m) => m.clone(),
        }
    }
}

/// The characters that may follow a term's closing delimiter.
pub open spec fn is_space(c: char) -> bool {
    c == ' ' || c == '\t' || c == '\r' || c == '\n'
}

/// The delimiter that closes a term opened by `open`, if `open` opens one.
pub open spec fn closing(open: char) -> Option<char> {
    if open == '<' {
        Some('>')
    } else if open == '"' {
        Some('"')
    } else if open == '\'' {
        Some('\'')
    } else {
        None
    }
}

/// The least index at or after `from` at which `c` stands in `s`; `s.len()` if there is none.
pub open spec fn find_char(s: Seq<char>, c: char, from: int) -> int
    decreases s.len() - from,
{
    if from < 0 || from >= s.len() {
        s.len() as int
    } else if s[from] == c {
        from
    } else {
        find_char(s, c, from + 1)
    }
}

/// The term that a text denotes: `<name>` a nonterminal, `"text"` or `'text'` a
/// terminal, the text running to the first closing delimiter, which only
/// white space may follow.
pub open spec fn term_syntax(s: Seq<char>) -> Option<Symbol> {
    if s.len() == 0 {
        None
    } else {
        match closing(s[0]) {
            None => None,
            Some(close) => {
                let end = find_char(s, close, 1);
                if end < s.len() && (forall|i: int| end < i < s.len() ==> is_space(#[trigger] s[i])) {
                    if s[0] == '<' {
                        Some(Symbol::Nonterminal(s.subrange(1, end)))
                    } else {
                        Some(Symbol::Terminal(s.subrange(1, end)))
                    }
                } else {
                    None
                }
            },
        }
    }
}

/// The error reported for a text that denotes no term: the empty text is
/// incomplete, any other is a parse error.
pub open spec fn syntax_error(s: Seq<char>) -> ErrorView {
    if s.len() == 0 {
        ErrorView::ParseIncomplete("Data error: insufficient size"@)
    } else {
        ErrorView::ParseError("Parsing error: not a term"@)
    }
}

/// The text of a term: a nonterminal between `<` and `>`, a terminal between double quotes.
pub open spec fn term_text(t: Symbol) -> Seq<char> {
    match t {
        Symbol::Terminal(s) => seq!['"'] + s + seq!['"'],
        Symbol::Nonterminal(s) => seq!['<'] + s + seq!['>'],
    }
}

/// The search for `c` from `from` on stops at the first place where `c` stands.
proof fn lemma_find_char(s: Seq<char>, c: char, from: int, end: int)
    requires
        0 <= from <= end < s.len(),
        s[end] == c,
        forall|i: int| from <= i < end ==> s[i] != c,
    ensures
        find_char(s, c, from) == end,
    decreases end - from,
{
    if from < end {
        lemma_find_char(s, c, from + 1, end);
    }
}

/// The text of a term is read as that term, where the term's own characters
/// do not hold the delimiter that closes it.
pub proof fn lemma_text_round_trip(t: Symbol)
    requires
        match t {
            Symbol::Terminal(text) => !text.contains('"'),
            Symbol::Nonterminal(name) => !name.contains('>'),
        },
    ensures
        term_syntax(term_text(t)) == Some(t),
{
    let s = term_text(t);
    match t {
        Symbol::Terminal(text) => {
            assert forall|i: int| 1 <= i < 1 + text.len() as int implies s[i] != '"' by {
                assert(s[i] == text[i - 1]);
                assert(text.contains(text[i - 1]));
            }
            lemma_find_char(s, '"', 1, 1 + text.len() as int);
            assert(s.subrange(1, 1 + text.len() as int) =~= text);
        },
        Symbol::Nonterminal(name) => {
            assert forall|i: int| 1 <= i < 1 + name.len() as int implies s[i] != '>' by {
                assert(s[i] == name[i - 1]);
                assert(name.contains(name[i - 1]));
            }
            lemma_find_char(s, '>', 1, 1 + name.len() as int);
            assert(s.subrange(1, 1 + name.len() as int) =~= name);
        },
    }
}

/// Whether `c` may follow a term's closing delimiter.
fn is_space_char(c: char) -> (r: bool)
    ensures
        r == is_space(c),
{
    c == ' ' || c == '\t' || c == '\r' || c == '\n'
}

impl Term {
    /// Get `Term` by parsing a string
    pub fn from_str(s: &str) -> (r: Result<Term, Error>)
        ensures
            match r {
                Ok(t) => term_syntax(s@) == Some(t@),
                Err(e) => term_syntax(s@) is None && e@ == syntax_error(s@),
            },
    {
        let n = s.unicode_len();
        if n == 0 {
            return Err(Error::ParseIncomplete(String::from_str("Data error: insufficient size")));
        }
        let open = s.get_char(0);
        let close = if open == '<' {
            '>'
        } else if open == '"' {
            '"'
        } else if open == '\'' {
            '\''
        } else {
            return Err(Error::ParseError(String::from_str("Parsing error: not a term")));
        };
        let mut end: usize = 1;
        while end < n && s.get_char(end) != close
            invariant
                1 <= end <= n,
                n == s@.len(),
                find_char(s@, close, 1) == find_char(s@, close, end as int),
            decreases n - end,
        {
            end += 1;
        }
        if end == n {
            return Err(Error::ParseError(String::from_str("Parsing error: not a term")));
        }
        let mut i: usize = end + 1;
        while i < n
            invariant
                end < i <= n,
                n == s@.len(),
                closing(s@[0]) == Some(close),
                find_char(s@, close, 1) == end,
                forall|j: int| end < j < i ==> is_space(#[trigger] s@[j]),
            decreases n - i,
        {
            if !is_space_char(s.get_char(i)) {
                return Err(Error::ParseError(String::from_str("Parsing error: not a term")));
            }
            i += 1;
        }
        let body = String::from_str(s.substring_char(1, end));
        if open == '<' {
            Ok(Term::Nonterminal(body))
        } else {
            Ok(Term::Terminal(body))
        }
    }

    /// The text of the term, as [`term_text`] gives it.
    pub fn to_string(&self) -> (r: String)
        ensures
            r@ == term_text(self@),
    {
        proof {
            reveal_strlit("\"");
            reveal_strlit("<");
            reveal_strlit(">");
        }
        match self {
            Term::Terminal(s) => {
                let r = String::from_str("\"").concat(s.as_str()).concat("\"");
                assert(r@ =~= term_text(self@));
                r
            },
            Term::Nonterminal(s) => {
                let r = String::from_str("<").concat(s.as_str()).concat(">");
                assert(r@ =~= term_text(self@));
                r
            },
        }
    }
}

impl std::str::FromStr for Term {
    type Err = Error;

    /// The same as [`Term::from_str`].
    fn from_str(s: &str) -> (r: Result<Self, Self::Err>)
        ensures
            match r {
                Ok(t) => term_syntax(s@) == Some(t@),
                Err(e) => term_syntax(s@) is None && e@ == syntax_error(s@),
            },
    {
        Term::from_str(s)
    }
}

} // verus!
