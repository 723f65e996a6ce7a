use lrpar::grammar_ast::{nonterminal, terminal, GrammarAST, GrammarASTError, Rule};
use lrpar::yacc::parse_yacc;
use lrpar::{ast_to_grammar, from_yacc, FromYaccError, YaccError, YaccErrorKind};

fn err_of(src: &str) -> YaccError {
    match parse_yacc(&src.to_string()) {
        Ok(_) => panic!("a faulty grammar was read"),
        Err(e) => e,
    }
}

#[test]
fn test_one_rule_one_terminal() {
    let grm = parse_yacc(&"%%\nA : 'a';\n".to_string()).unwrap();
    assert_eq!(grm.rule_count(), 1);
    let mut rule = Rule::new("A".to_string());
    rule.add_symbols(vec![terminal("a")]);
    assert_eq!(*grm.get_rule("A").unwrap(), rule);
    assert_eq!(grm.token_names(), vec!["a".to_string()]);
}

#[test]
fn test_two_alternatives_two_tokens() {
    let grm = parse_yacc(&"%%\nA : 'a' | 'b';\n".to_string()).unwrap();
    assert_eq!(grm.get_rule("A").unwrap().alternatives.len(), 2);
    assert_eq!(grm.token_names(), vec!["a".to_string(), "b".to_string()]);
}

#[test]
fn test_empty_alternatives() {
    let grm = parse_yacc(&"%%\nA : ;\nB : 'b' | ;\n".to_string()).unwrap();
    let a = grm.get_rule("A").unwrap();
    assert_eq!(a.alternatives, vec![vec![]]);
    let b = grm.get_rule("B").unwrap();
    assert_eq!(b.alternatives, vec![vec![terminal("b")], vec![]]);
}

#[test]
fn test_error_offsets() {
    assert_eq!(err_of("%%A:"), YaccError { kind: YaccErrorKind::IncompleteRule, off: 4 });
    assert_eq!(err_of("%% %% x"), YaccError { kind: YaccErrorKind::ProgramsNotSupported, off: 3 });
    assert_eq!(err_of("%%A x;"), YaccError { kind: YaccErrorKind::MissingColon, off: 4 });
    assert_eq!(err_of("%token x"), YaccError { kind: YaccErrorKind::PrematureEnd, off: 8 });
    assert_eq!(err_of(" %woo"), YaccError { kind: YaccErrorKind::UnknownDeclaration, off: 1 });
    assert_eq!(err_of(""), YaccError { kind: YaccErrorKind::PrematureEnd, off: 0 });
    assert_eq!(err_of("%token"), YaccError { kind: YaccErrorKind::PrematureEnd, off: 6 });
    assert_eq!(err_of("%start 9\n%%"), YaccError { kind: YaccErrorKind::IllegalName, off: 7 });
    assert_eq!(err_of("%token %%"), YaccError { kind: YaccErrorKind::IllegalName, off: 7 });
    assert_eq!(err_of("%% : 'a';"), YaccError { kind: YaccErrorKind::IllegalName, off: 3 });
    assert_eq!(err_of("x\n%%"), YaccError { kind: YaccErrorKind::UnknownDeclaration, off: 0 });
    assert_eq!(err_of("%tokens a\n%%"), YaccError { kind: YaccErrorKind::UnknownDeclaration, off: 0 });
}

#[test]
fn test_incomplete_rules() {
    assert_eq!(err_of("%%A: 'a"), YaccError { kind: YaccErrorKind::IncompleteRule, off: 5 });
    assert_eq!(err_of("%%A: '' ;"), YaccError { kind: YaccErrorKind::IncompleteRule, off: 5 });
    assert_eq!(err_of("%%A: a B : b;"), YaccError { kind: YaccErrorKind::IncompleteRule, off: 9 });
    assert_eq!(err_of("%%A: a %%"), YaccError { kind: YaccErrorKind::IncompleteRule, off: 7 });
    assert_eq!(err_of("%%A: a |"), YaccError { kind: YaccErrorKind::IncompleteRule, off: 8 });
}

#[test]
fn test_error_message() {
    assert_eq!(err_of("%%A:").message(), "Incomplete rule at position 4");
    assert_eq!(
        err_of("0123456789 %nope").message(),
        "Unknown declaration at position 0"
    );
    assert_eq!(
        err_of("%token a\n%start b\n%%\nr : ;\n%% more").message(),
        "Programs not currently supported at position 27"
    );
}

#[test]
fn test_declared_name_is_terminal_in_rules() {
    let grm = parse_yacc(&"%token a\n%%\nA : a b 'c' c;".to_string()).unwrap();
    let mut rule = Rule::new("A".to_string());
    rule.add_symbols(vec![terminal("a"), nonterminal("b"), terminal("c"), terminal("c")]);
    assert_eq!(*grm.get_rule("A").unwrap(), rule);
    assert!(grm.has_token("a"));
    assert!(grm.has_token("c"));
    assert!(!grm.has_token("b"));
}

#[test]
fn test_every_terminal_is_a_token() {
    let grm = parse_yacc(&"%%\nA : 'x' B \"y z\" | 'w';\nB : 'v' ;".to_string()).unwrap();
    for i in 0..grm.rule_count() {
        for alt in &grm.rule_at(i).alternatives {
            for sym in alt {
                if let lrpar::grammar_ast::Symbol::Terminal(t) = sym {
                    assert!(grm.has_token(t));
                }
            }
        }
    }
    assert_eq!(grm.token_names().len(), 4);
}

#[test]
fn test_later_start_replaces_earlier() {
    let grm = parse_yacc(&"%start A\n%start B\n%%\nB : ;".to_string()).unwrap();
    assert_eq!(grm.start.unwrap(), "B");
}

#[test]
fn test_from_yacc_valid() {
    let grm = from_yacc(&"%start A\n%%\nA : 'a';".to_string()).unwrap();
    assert_eq!(grm.start_name(), Some("A".to_string()));
    let grm = from_yacc(&"%%\nA : 'a';".to_string()).unwrap();
    assert_eq!(grm.start_name(), None);
}

#[test]
fn test_from_yacc_unknown_start() {
    match from_yacc(&"%start S\n%%\nA : 'a';".to_string()) {
        Err(FromYaccError::GrammarASTError(GrammarASTError::InvalidStartRule(n))) => {
            assert_eq!(n, "S")
        }
        _ => panic!("an unknown start symbol was accepted"),
    }
    match from_yacc(&"%start S\n%%\nA : 'a';".to_string()) {
        Err(e) => assert_eq!(e.message(), "Start rule 'S' does not appear in grammar"),
        Ok(_) => panic!("an unknown start symbol was accepted"),
    }
}

#[test]
fn test_from_yacc_syntax_error() {
    match from_yacc(&"%%A:".to_string()) {
        Err(FromYaccError::YaccError(e)) => {
            assert_eq!(e.kind, YaccErrorKind::IncompleteRule);
            assert_eq!(e.off, 4);
        }
        _ => panic!("an incomplete rule was accepted"),
    }
}

#[test]
fn test_validate() {
    let mut ast = GrammarAST::new();
    ast.add_rule("A".to_string(), vec![terminal("a")]);
    assert_eq!(ast.validate(), Ok(()));
    ast.set_start("B".to_string());
    assert_eq!(ast.validate(), Err(GrammarASTError::InvalidStartRule("B".to_string())));
    ast.set_start("A".to_string());
    assert_eq!(ast.validate(), Ok(()));
}

#[test]
fn test_ast_to_grammar_discovers_tokens() {
    let mut ast = GrammarAST::new();
    ast.add_token("d".to_string());
    ast.add_rule("A".to_string(), vec![terminal("a"), nonterminal("B")]);
    ast.add_rule("B".to_string(), vec![]);
    ast.add_rule("A".to_string(), vec![terminal("b"), terminal("a")]);
    ast.set_start("A".to_string());
    let grm = ast_to_grammar(&ast);
    assert_eq!(grm.start().map(|s| s.as_str()), Some("A"));
    assert_eq!(grm.rule_count(), 2);
    assert_eq!(*grm.rule_at(0), *ast.get_rule("A").unwrap());
    assert_eq!(*grm.rule_at(1), *ast.get_rule("B").unwrap());
    assert_eq!(
        grm.token_names(),
        vec!["d".to_string(), "a".to_string(), "b".to_string()]
    );
    assert!(grm.has_token("a") && grm.has_token("b") && grm.has_token("d"));
    assert!(!grm.has_token("B"));
}

#[test]
fn test_non_ascii_text() {
    let grm = parse_yacc(&"%%\nA : 'é→' ;".to_string()).unwrap();
    assert!(grm.has_token("é→"));
    assert_eq!(err_of("%%\nA : 'é' é;").off, 11);
}

#[test]
fn test_declarations_stand_on_one_line() {
    assert_eq!(
        err_of("%token a\nb\n%%\nA : ;"),
        YaccError { kind: YaccErrorKind::UnknownDeclaration, off: 9 }
    );
    assert_eq!(
        err_of("%start\nA\n%%\nA : ;"),
        YaccError { kind: YaccErrorKind::IllegalName, off: 6 }
    );
    let grm = parse_yacc(&"%token\ta  b\t\n\n%start A \r\n%%\nA : a b;".to_string()).unwrap();
    assert_eq!(grm.token_names(), vec!["a".to_string(), "b".to_string()]);
    assert_eq!(grm.start_name(), Some("A".to_string()));
}

#[test]
fn test_print_exact_text() {
    let src = "%start Expr\n%token int\n%%\nExpr : Expr '+' Term | Term ;\nTerm : int | \"it's\" | ;";
    let grm = ast_to_grammar(&from_yacc(&src.to_string()).unwrap());
    assert_eq!(
        grm.to_yacc(),
        "%start Expr\n%%\nExpr : Expr '+' Term | Term ;\nTerm : 'int' | \"it's\" | ;\n"
    );
}

#[test]
fn test_print_then_parse() {
    let src = "%start Expr\n%token int\n%%\nExpr : Expr '+' Term | Term ;\nTerm : int | \"it's\" | ;\nExpr : '(' Expr ')';";
    let first = from_yacc(&src.to_string()).unwrap();
    let text = ast_to_grammar(&first).to_yacc();
    let second = from_yacc(&text).unwrap();
    assert_eq!(second.start_name(), first.start_name());
    assert_eq!(second.rule_count(), first.rule_count());
    for i in 0..first.rule_count() {
        assert_eq!(*second.rule_at(i), *first.rule_at(i));
    }
    assert_eq!(ast_to_grammar(&second).to_yacc(), text);
}

#[test]
fn test_line_and_column() {
    let src = "%token a\n%start b\n%%\nr : ;\n  %% more";
    let e = err_of(src);
    assert_eq!(e.off, 29);
    assert_eq!(e.line_col(src), (4, 2));
    assert_eq!(err_of("%%A:").line_col("%%A:"), (0, 4));
    assert_eq!(err_of("").line_col(""), (0, 0));
    let far = YaccError { kind: YaccErrorKind::MissingColon, off: 100 };
    assert_eq!(far.line_col("a\nbc"), (1, 2));
    assert_eq!(far.line_col("a\n"), (1, 0));
}

#[test]
fn test_second_separator_is_always_an_error() {
    assert_eq!(
        err_of("%%\nA : 'a';\n%%"),
        YaccError { kind: YaccErrorKind::ProgramsNotSupported, off: 12 }
    );
    assert_eq!(
        err_of("%%%%"),
        YaccError { kind: YaccErrorKind::ProgramsNotSupported, off: 2 }
    );
    match from_yacc(&"%%\nA : 'a';\n%%  \n".to_string()) {
        Err(FromYaccError::YaccError(e)) => {
            assert_eq!(e.kind, YaccErrorKind::ProgramsNotSupported)
        }
        _ => panic!("a second separator was accepted"),
    }
}
