use regex_nfa::graph::Graph;
use regex_nfa::parser::{
    lexer, parse_tokens, parser, CharClass, CharCost, LexError, Lexeme, RegexError, SyntaxError,
};

#[test]
fn test_charclass_is_in() {
    let class = CharClass { chars: vec!['z'], ranges: vec![('a', 'z')] };
    for letter in 'a'..='z' {
        assert!(class.is_in(letter));
    }
}

#[test]
fn test_lexer() {
    let string = "(ac\\||[ab])?".to_string();
    let lex_string = lexer(string).ok().unwrap();
    let goal = vec![
        Lexeme::OpenParen,
        Lexeme::Literal('a'),
        Lexeme::Literal('c'),
        Lexeme::Literal('|'),
        Lexeme::Bar,
        Lexeme::OpenBracket,
        Lexeme::Literal('a'),
        Lexeme::Literal('b'),
        Lexeme::CloseBracket,
        Lexeme::CloseParen,
        Lexeme::Question,
    ];
    assert_eq!(goal, lex_string);
}

#[test]
fn test_lexer_class() {
    let string = "(()[a?b[])".to_string();
    let lex_string = lexer(string).ok().unwrap();
    let goal = vec![
        Lexeme::OpenParen,
        Lexeme::OpenParen,
        Lexeme::CloseParen,
        Lexeme::OpenBracket,
        Lexeme::Literal('a'),
        Lexeme::Literal('?'),
        Lexeme::Literal('b'),
        Lexeme::Literal('['),
        Lexeme::CloseBracket,
        Lexeme::CloseParen,
    ];
    assert_eq!(goal, lex_string);
}

#[test]
fn test_lexer_in_class_ranges() {
    let string = "[][a-zssA-)]".to_string();
    let lex_string = lexer(string).ok().unwrap();
    let goal = vec![
        Lexeme::OpenBracket,
        Lexeme::CloseBracket,
        Lexeme::OpenBracket,
        Lexeme::Range('a', 'z'),
        Lexeme::Literal('s'),
        Lexeme::Literal('s'),
        Lexeme::Range('A', ')'),
        Lexeme::CloseBracket,
    ];
    assert_eq!(goal, lex_string)
}

#[test]
fn test_parser() {
    let regex = "([abcd]|a|b|c|d)+".to_string();
    let graph = parser(regex).ok().unwrap();
    let mut goal = Graph::new();
    goal.add_cost(CharCost::Class(CharClass { chars: vec!['a', 'b', 'c', 'd'], ranges: vec![] }));
    goal.add_junction(0);
    goal.add_cost(CharCost::Singleton('a'));
    goal.add_junction(0);
    goal.add_cost(CharCost::Singleton('b'));
    goal.add_junction(0);
    goal.add_cost(CharCost::Singleton('c'));
    goal.add_junction(0);
    goal.add_cost(CharCost::Singleton('d'));
    goal.close_junction(0);
    goal.one_or_more(0);

    assert_eq!(goal, graph);
}

#[test]
fn class_range_membership() {
    let mut class = CharClass::new();
    class.plus_range('a', 'z');
    for letter in 'a'..='z' {
        assert!(class.is_in(letter));
    }
    assert!(!class.is_in('A'));
    assert!(!class.is_in('{'));
    class.plus_literal('A');
    assert!(class.is_in('A'));
}

#[test]
fn label_admits() {
    assert!(CharCost::fromchar('q').admits('q'));
    assert!(!CharCost::fromchar('q').admits('r'));
    assert!(CharCost::Dot.admits('%'));
    let class = CharClass { chars: vec!['x'], ranges: vec![('0', '9')] };
    let cost = CharCost::Class(class);
    assert!(cost.admits('5') && cost.admits('x') && !cost.admits('y'));
}

#[test]
fn match_char_and_back() {
    for c in ['(', ')', '[', ']', '*', '?', '+', '.', '|', 'k'] {
        assert_eq!(Lexeme::match_char(c).lexeme_to_char(), c);
    }
    assert_eq!(Lexeme::match_char('k'), Lexeme::Literal('k'));
    assert_eq!(Lexeme::Range('a', 'b').lexeme_to_char(), '-');
    let mut t = Lexeme::Star;
    t.set(Lexeme::Dot);
    assert_eq!(t, Lexeme::Dot);
}

#[test]
fn lexer_escapes() {
    assert_eq!(lexer("\\d\\.".to_string()), Ok(vec![Lexeme::Builtin('d'), Lexeme::Literal('.')]));
    assert_eq!(lexer("a\\".to_string()), Err(LexError::DanglingEscape));
}

#[test]
fn lexer_range_errors() {
    assert_eq!(lexer("[a-]".to_string()), Err(LexError::RangeBeforeClose));
    assert_eq!(lexer("[-a]".to_string()), Err(LexError::RangeWithoutStart));
    assert_eq!(lexer("[a-b-c]".to_string()), Err(LexError::RangeAfterRange));
    assert_eq!(lexer("[a-".to_string()), Err(LexError::RangeWithoutEnd));
    assert_eq!(lexer("[ab".to_string()), Err(LexError::UnclosedClass));
    assert_eq!(parser("[a-]".to_string()), Err(RegexError::Lexical(LexError::RangeBeforeClose)));
}

#[test]
fn parser_two_literals() {
    let graph = parser("ab".to_string()).ok().unwrap();
    assert_eq!(graph.arena.len(), 3);
    assert_eq!(graph.arena[0].edges, vec![(1, Some(CharCost::Singleton('a')))]);
    assert_eq!(graph.arena[1].edges, vec![(2, Some(CharCost::Singleton('b')))]);
    assert!(graph.arena[2].edges.is_empty());
}

#[test]
fn parser_alternation_under_plus() {
    let graph = parser("(N3|TRA|N7)+".to_string()).ok().unwrap();
    assert_eq!(graph.arena.len(), 9);
    assert_eq!(
        graph.arena[0].edges,
        vec![
            (1, Some(CharCost::Singleton('N'))),
            (3, Some(CharCost::Singleton('T'))),
            (6, Some(CharCost::Singleton('N')))
        ]
    );
    assert_eq!(graph.arena[8].edges, vec![(0, None)]);
}

#[test]
fn parser_syntax_errors() {
    assert_eq!(parser("a)".to_string()), Err(RegexError::Syntax(SyntaxError::UnmatchedClose)));
    assert_eq!(parser("(a".to_string()), Err(RegexError::Syntax(SyntaxError::UnclosedGroup)));
    assert_eq!(
        parser("*a".to_string()),
        Err(RegexError::Syntax(SyntaxError::UnexpectedToken(Lexeme::Star)))
    );
    assert_eq!(
        parser("a|+".to_string()),
        Err(RegexError::Syntax(SyntaxError::UnexpectedToken(Lexeme::Plus)))
    );
    assert_eq!(
        parse_tokens(&vec![Lexeme::OpenBracket, Lexeme::Literal('a')]),
        Err(SyntaxError::UnclosedClass)
    );
    assert_eq!(
        parse_tokens(&vec![Lexeme::OpenBracket, Lexeme::Star]),
        Err(SyntaxError::UnexpectedToken(Lexeme::Star))
    );
    assert_eq!(
        parse_tokens(&vec![Lexeme::CloseBracket]),
        Err(SyntaxError::UnexpectedToken(Lexeme::CloseBracket))
    );
}

#[test]
fn parsing_same_tokens_twice_gives_same_graph() {
    let tokens = lexer("(a|b[c-e])*x?".to_string()).unwrap();
    let first = parse_tokens(&tokens).unwrap();
    let second = parse_tokens(&tokens).unwrap();
    assert_eq!(first, second);
}

#[test]
fn class_then_quantifier() {
    let graph = parser("[ab]+".to_string()).unwrap();
    assert_eq!(graph.arena.len(), 2);
    // After a single atom the quantifier target is the atom's own end node.
    assert_eq!(graph.arena[1].edges, vec![(1, None)]);
    assert_eq!(graph.active, 1);
}

#[test]
fn parsed_lowercase_class() {
    let graph = parser("[a-z]".to_string()).unwrap();
    assert_eq!(graph.arena.len(), 2);
    let label = graph.arena[0].edges[0].1.as_ref().unwrap();
    for letter in 'a'..='z' {
        assert!(label.admits(letter));
    }
    assert!(!label.admits('A'));
}
