use lrpar::builder::{needs_write, BuildError, LexerBuilder, LexerKind};
use lrpar::idmap::IdMap;
use lrpar::lexer::{reconcile, LexerRule};
use lrpar::text::{escape, unescape};

fn rule(id: Option<u32>, name: Option<&str>, pattern: &str) -> LexerRule<u32> {
    LexerRule::new(id, name.map(|n| n.to_string()), pattern.to_string())
}

#[test]
fn test_generate_exact_text() {
    let mut ids: IdMap<u8> = IdMap::new();
    ids.insert("int".to_string(), 3);
    ids.insert("+".to_string(), 4);
    let rules = vec![
        LexerRule::new(None, Some("int".to_string()), "[0-9]+".to_string()),
        LexerRule::new(None, None, "[ \\t]+".to_string()),
        LexerRule::new(Some(9u8), Some("+".to_string()), "\\+".to_string()),
    ];
    let built = LexerBuilder::<u8>::new()
        .lexerkind(LexerKind::LRNonStreamingLexer)
        .mod_name("calc_l")
        .rule_ids_map(ids)
        .build(&rules, "ignored")
        .unwrap();
    let expected = "mod calc_l {
use lrlex::{LexerDef, LRNonStreamingLexerDef, Rule};

#[allow(dead_code)]
pub fn lexerdef() -> LRNonStreamingLexerDef<u8> {
    let rules = vec![
Rule::new(Some(3), Some(\"int\".to_string()), \"[0-9]+\".to_string()).unwrap(),
Rule::new(None, None, \"[ \\\\t]+\".to_string()).unwrap(),
Rule::new(Some(4), Some(\"+\".to_string()), \"\\\\+\".to_string()).unwrap(),
];
    LRNonStreamingLexerDef::from_rules(rules)
}
#[allow(dead_code)]
pub const T_INT: u8 = 3;
}";
    assert_eq!(built.text, expected);
    assert!(built.missing_from_lexer.unwrap().is_empty());
    assert!(built.missing_from_parser.unwrap().is_empty());
}

#[test]
fn test_escape_round_trip() {
    let p = "a\\b\"c";
    assert_eq!(escape(p), "a\\\\b\\\"c");
    assert_eq!(unescape(&escape(p)), p);
}

#[test]
fn test_reconcile_without_map() {
    let rules = vec![rule(Some(7), Some("a"), "a"), rule(None, None, " ")];
    let r = reconcile(&rules, None);
    assert!(r.missing_from_lexer.is_none());
    assert!(r.missing_from_parser.is_none());
    assert_eq!(r.rules.len(), 2);
    assert_eq!(r.rules[0].tok_id, Some(7));
    assert_eq!(r.rules[0].name.as_deref(), Some("a"));
    assert_eq!(r.rules[1].pattern, " ");
}

#[test]
fn test_reconcile_difference() {
    let rules = vec![rule(None, Some("a"), "a"), rule(None, Some("b"), "b")];
    let mut ids: IdMap<u32> = IdMap::new();
    ids.insert("a".to_string(), 1);
    ids.insert("c".to_string(), 2);
    let r = reconcile(&rules, Some(&ids));
    assert_eq!(r.missing_from_lexer.unwrap().names(), vec!["c".to_string()]);
    assert_eq!(r.missing_from_parser.unwrap().names(), vec!["b".to_string()]);
    assert_eq!(r.rules[0].tok_id, Some(1));
    assert_eq!(r.rules[1].tok_id, None);
}

#[test]
fn test_missing_from_lexer_is_fatal_by_default() {
    let rules = vec![rule(None, Some("a"), "a")];
    let mut ids: IdMap<u32> = IdMap::new();
    ids.insert("a".to_string(), 1);
    ids.insert("c".to_string(), 2);
    match LexerBuilder::<u32>::new().rule_ids_map(ids).build(&rules, "x") {
        Err(BuildError::MissingFromLexer(s)) => assert_eq!(s.names(), vec!["c".to_string()]),
        _ => panic!("a token that the lexer lacks was let through"),
    }
}

#[test]
fn test_needs_write() {
    assert!(needs_write(None, "x"));
    assert!(needs_write(Some("y"), "x"));
    assert!(!needs_write(Some("x"), "x"));
}

#[test]
fn test_reconcile_exact_cover() {
    let rules = vec![
        rule(None, Some("a"), "a"),
        rule(None, None, "[ ]+"),
        rule(Some(9), Some("b"), "b"),
    ];
    let mut ids: IdMap<u32> = IdMap::new();
    ids.insert("b".to_string(), 1);
    ids.insert("a".to_string(), 2);
    let r = reconcile(&rules, Some(&ids));
    assert!(r.missing_from_lexer.unwrap().is_empty());
    assert!(r.missing_from_parser.unwrap().is_empty());
    assert_eq!(r.rules[0].tok_id, Some(2));
    assert_eq!(r.rules[1].tok_id, None);
    assert_eq!(r.rules[2].tok_id, Some(1));
}

#[test]
fn test_generate_twice_same_text() {
    let make = || {
        let mut ids: IdMap<u16> = IdMap::new();
        ids.insert("id".to_string(), 0);
        ids.insert("_x9".to_string(), 65535);
        ids.insert("9x".to_string(), 7);
        ids.insert("".to_string(), 8);
        ids.insert("a-b".to_string(), 9);
        ids.insert("x\n".to_string(), 10);
        let rules = vec![
            LexerRule::new(None, Some("id".to_string()), "[a-z]+\"\\".to_string()),
            LexerRule::new(None, Some("9x".to_string()), "9x".to_string()),
        ];
        LexerBuilder::<u16>::new()
            .allow_missing_terms_in_lexer(true)
            .rule_ids_map(ids)
            .build(&rules, "lang")
            .unwrap()
            .text
    };
    let first = make();
    let second = make();
    assert_eq!(first, second);
    assert!(!needs_write(Some(&first), &second));
    let expected = "mod lang_l {
use lrlex::{LexerDef, LRNonStreamingLexerDef, Rule};

#[allow(dead_code)]
pub fn lexerdef() -> LRNonStreamingLexerDef<u16> {
    let rules = vec![
Rule::new(Some(0), Some(\"id\".to_string()), \"[a-z]+\\\"\\\\\".to_string()).unwrap(),
Rule::new(Some(7), Some(\"9x\".to_string()), \"9x\".to_string()).unwrap(),
];
    LRNonStreamingLexerDef::from_rules(rules)
}
#[allow(dead_code)]
pub const T__X9: u16 = 65535;
#[allow(dead_code)]
pub const T_ID: u16 = 0;
}";
    assert_eq!(first, expected);
}

#[test]
fn test_name_is_written_as_a_literal() {
    let rules = vec![LexerRule::new(Some(1u64), Some("a\"b\\\n".to_string()), "x".to_string())];
    let built = LexerBuilder::<u64>::new().build(&rules, "m").unwrap();
    assert!(built
        .text
        .contains("Rule::new(Some(1), Some(\"a\\\"b\\\\\\n\".to_string()), \"x\".to_string()).unwrap(),"));
    assert!(built.text.starts_with("mod m_l {\n"));
    assert!(built.text.contains("LRNonStreamingLexerDef<u64>"));
    assert!(built.missing_from_lexer.is_none());
    assert!(built.missing_from_parser.is_none());
}

#[test]
fn test_missing_from_parser_policy() {
    let rules = vec![rule(None, Some("a"), "a"), rule(None, Some("b"), "b")];
    let ids = || {
        let mut ids: IdMap<u32> = IdMap::new();
        ids.insert("a".to_string(), 1);
        ids
    };
    let built = LexerBuilder::<u32>::new().rule_ids_map(ids()).build(&rules, "x").unwrap();
    assert_eq!(built.missing_from_parser.unwrap().names(), vec!["b".to_string()]);
    match LexerBuilder::<u32>::new()
        .rule_ids_map(ids())
        .allow_missing_tokens_in_parser(false)
        .build(&rules, "x")
    {
        Err(BuildError::MissingFromParser(s)) => assert_eq!(s.names(), vec!["b".to_string()]),
        _ => panic!("a token that the grammar lacks was let through"),
    }
}

#[test]
fn test_id_map() {
    let mut ids: IdMap<usize> = IdMap::new();
    assert_eq!(ids.insert("a".to_string(), 1), None);
    assert_eq!(ids.insert("b".to_string(), 2), None);
    assert_eq!(ids.insert("a".to_string(), 3), Some(1));
    assert_eq!(ids.len(), 2);
    assert_eq!(ids.get("a"), Some(3));
    assert_eq!(ids.get("c"), None);
    assert!(ids.contains_key("b"));
    assert_eq!(ids.name_at(1), "b");
    assert_eq!(ids.id_at(1), 2);
}

#[test]
fn test_from_pairs_fixes_the_order() {
    let a = IdMap::from_pairs(&vec![
        ("b".to_string(), 2u32),
        ("a".to_string(), 9),
        ("ab".to_string(), 3),
        ("".to_string(), 4),
        ("a".to_string(), 1),
        ("B".to_string(), 5),
    ]);
    assert_eq!(a.len(), 5);
    let names: Vec<&str> = (0..a.len()).map(|i| a.name_at(i).as_str()).collect();
    assert_eq!(names, vec!["", "B", "a", "ab", "b"]);
    let ids: Vec<u32> = (0..a.len()).map(|i| a.id_at(i)).collect();
    assert_eq!(ids, vec![4, 5, 1, 3, 2]);
    assert_eq!(a.get("a"), Some(1));
}

#[test]
fn test_text_does_not_depend_on_the_order_of_entries() {
    let rules = vec![rule(None, Some("a"), "a"), rule(None, Some("b"), "b")];
    let one = IdMap::from_pairs(&vec![("a".to_string(), 1u32), ("b".to_string(), 2)]);
    let mut other: IdMap<u32> = IdMap::new();
    other.insert("b".to_string(), 2);
    other.insert("a".to_string(), 1);
    let first = LexerBuilder::<u32>::new().rule_ids_map(one).build(&rules, "x").unwrap();
    let second = LexerBuilder::<u32>::new().rule_ids_map(other).build(&rules, "x").unwrap();
    assert_eq!(first.text, second.text);
    assert!(first.text.ends_with(
        "#[allow(dead_code)]\npub const T_A: u32 = 1;\n#[allow(dead_code)]\npub const T_B: u32 = 2;\n}"
    ));
}

#[test]
fn test_has_mod_name() {
    assert!(!LexerBuilder::<u32>::new().has_mod_name());
    assert!(LexerBuilder::<u32>::new().mod_name("m").has_mod_name());
}
