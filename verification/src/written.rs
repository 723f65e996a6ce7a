//! What the reader gives can be written: a grammar read from text has the
//! names and the shapes that the printer needs, so that it reads back as it
//! was unless one name stands both for a terminal and for a nonterminal.

use vstd::prelude::*;
use crate::grammar_ast::{
    GrammarView, RuleView, SymbolView, has_rule_named, lemma_with_alternative_distinct,
    names_distinct, rule_position, rules_use, with_alternative,
};
use crate::printer::grammar_text;
use crate::reparse::{is_name, is_quotable, lemma_print_then_parse, printable, symbol_printable};
use crate::yacc::{
    declarations, is_name_char, is_name_start, is_quote, lemma_name_end_bounds,
    lemma_quote_end_bounds, lemma_rule_body_bounds, lemma_skip_blanks_bounds,
    lemma_skip_ws_bounds, lemma_token_list_bounds, name_end, named_symbol, parsed, quote_end,
    rule_body, rules, separator_at, skip_blanks, skip_ws, start_keyword, token_keyword,
    token_list,
};

verus! {

/// Whether a symbol can be written: a terminal must be quotable and a
/// nonterminal must be a name.
pub open spec fn symbol_writable(sym: SymbolView) -> bool {
    match sym {
        SymbolView::Terminal(t) => is_quotable(t),
        SymbolView::Nonterminal(n) => is_name(n),
    }
}

/// Whether each of the symbols can be written.
pub open spec fn symbols_writable(syms: Seq<SymbolView>) -> bool {
    forall|k: int| 0 <= k < syms.len() ==> symbol_writable(#[trigger] syms[k])
}

/// Whether a rule can be written: its name is a name, it has an alternative,
/// and each symbol can be written.
pub open spec fn rule_writable(r: RuleView) -> bool {
    &&& is_name(r.name)
    &&& r.alternatives.len() >= 1
    &&& forall|j: int|
        0 <= j < r.alternatives.len() ==> symbols_writable(#[trigger] r.alternatives[j])
}

/// Whether each of the rules can be written.
pub open spec fn rules_writable(rules: Seq<RuleView>) -> bool {
    forall|i: int| 0 <= i < rules.len() ==> rule_writable(#[trigger] rules[i])
}

/// Whether a grammar can be written: the names of its rules differ, the start
/// symbol is a name, and each rule can be written.
pub open spec fn writable(g: GrammarView) -> bool {
    &&& names_distinct(g.rules)
    &&& (g.start matches Some(n) ==> is_name(n))
    &&& rules_writable(g.rules)
}

/// Whether no name stands both for a nonterminal and for a terminal in the
/// rules of a grammar.
pub open spec fn unambiguous(g: GrammarView) -> bool {
    forall|i: int, j: int, k: int|
        0 <= i < g.rules.len() && 0 <= j < g.rules[i].alternatives.len() && 0 <= k
            < g.rules[i].alternatives[j].len() ==> (
        #[trigger] g.rules[i].alternatives[j][k] matches SymbolView::Nonterminal(n)
            ==> !rules_use(g.rules, n))
}

/// A grammar that can be written and is unambiguous is printable.
pub proof fn lemma_writable_is_printable(g: GrammarView)
    requires
        writable(g),
        unambiguous(g),
    ensures
        printable(g),
{
    assert forall|i: int, j: int, k: int|
        0 <= i < g.rules.len() && 0 <= j < g.rules[i].alternatives.len() && 0 <= k
            < g.rules[i].alternatives[j].len() implies symbol_printable(
        #[trigger] g.rules[i].alternatives[j][k],
        g.rules,
    ) by {
        assert(rule_writable(g.rules[i]));
        assert(symbols_writable(g.rules[i].alternatives[j]));
        assert(symbol_writable(g.rules[i].alternatives[j][k]));
    }
    assert forall|i: int| 0 <= i < g.rules.len() implies is_name((#[trigger] g.rules[i]).name)
        && g.rules[i].alternatives.len() >= 1 by {
        assert(rule_writable(g.rules[i]));
    }
}

/// A name is quotable.
proof fn lemma_name_is_quotable(n: Seq<char>)
    requires
        is_name(n),
    ensures
        is_quotable(n),
{
    if n.contains('\'') {
        let k = n.index_of('\'');
        assert(is_name_char(n[k]));
    }
}

/// Up to `name_end` stand characters of a name.
proof fn lemma_name_run(s: Seq<char>, i: int)
    requires
        0 <= i <= s.len(),
    ensures
        forall|k: int| i <= k < name_end(s, i) ==> is_name_char(#[trigger] s[k]),
    decreases s.len() - i,
{
    if i < s.len() && is_name_char(s[i]) {
        lemma_name_run(s, i + 1);
    }
}

/// What is read as a name is a name.
proof fn lemma_name_read(s: Seq<char>, i: int)
    requires
        0 <= i < s.len(),
        is_name_start(s[i]),
    ensures
        is_name(s.subrange(i, name_end(s, i))),
{
    lemma_name_end_bounds(s, i);
    lemma_name_run(s, i);
    let n = s.subrange(i, name_end(s, i));
    assert(n[0] == s[i]);
    assert forall|k: int| 0 <= k < n.len() implies is_name_char(#[trigger] n[k]) by {
        assert(n[k] == s[i + k]);
    }
}

/// Up to `quote_end` the quote does not stand.
proof fn lemma_quote_run(s: Seq<char>, i: int, q: char)
    requires
        0 <= i <= s.len(),
    ensures
        forall|k: int| i <= k < quote_end(s, i, q) ==> (#[trigger] s[k]) != q,
    decreases s.len() - i,
{
    if i < s.len() && s[i] != q {
        lemma_quote_run(s, i + 1, q);
    }
}

/// What is read between quotes is quotable.
proof fn lemma_quoted_read(s: Seq<char>, i: int, q: char)
    requires
        0 <= i <= s.len(),
        is_quote(q),
        i < quote_end(s, i, q),
    ensures
        is_quotable(s.subrange(i, quote_end(s, i, q))),
{
    lemma_quote_end_bounds(s, i, q);
    lemma_quote_run(s, i, q);
    let t = s.subrange(i, quote_end(s, i, q));
    if t.contains(q) {
        let k = t.index_of(q);
        assert(t[k] == s[i + k]);
    }
}

/// Adding an alternative that can be written, under a name, keeps rules
/// that can be written so.
proof fn lemma_with_alternative_writable(
    rules: Seq<RuleView>,
    name: Seq<char>,
    syms: Seq<SymbolView>,
)
    requires
        rules_writable(rules),
        is_name(name),
        symbols_writable(syms),
    ensures
        rules_writable(with_alternative(rules, name, syms)),
{
    let after = with_alternative(rules, name, syms);
    assert forall|i: int| 0 <= i < after.len() implies rule_writable(#[trigger] after[i]) by {
        if has_rule_named(rules, name) {
            let k = rule_position(rules, name);
            if i == k {
                assert(rule_writable(rules[k]));
                let alts = after[i].alternatives;
                assert forall|j: int| 0 <= j < alts.len() implies symbols_writable(
                    #[trigger] alts[j],
                ) by {
                    if j < rules[k].alternatives.len() {
                        assert(alts[j] == rules[k].alternatives[j]);
                    }
                }
            } else {
                assert(after[i] == rules[i]);
            }
        } else {
            if i < rules.len() {
                assert(after[i] == rules[i]);
            } else {
                let alts = after[i].alternatives;
                assert forall|j: int| 0 <= j < alts.len() implies symbols_writable(
                    #[trigger] alts[j],
                ) by {
                    assert(alts[j] == syms);
                }
            }
        }
    }
}

/// Adding an alternative that can be written, under a name, keeps a grammar
/// that can be written so.
proof fn lemma_grammar_with_alternative_writable(
    g: GrammarView,
    name: Seq<char>,
    syms: Seq<SymbolView>,
)
    requires
        writable(g),
        is_name(name),
        symbols_writable(syms),
    ensures
        writable(g.with_alternative(name, syms)),
{
    lemma_with_alternative_distinct(g.rules, name, syms);
    lemma_with_alternative_writable(g.rules, name, syms);
}

/// `token_list` changes neither the start symbol nor the rules.
proof fn lemma_token_list_frame(s: Seq<char>, i: int, g: GrammarView)
    ensures
        token_list(s, i, g).1.start == g.start,
        token_list(s, i, g).1.rules == g.rules,
    decreases s.len() - i,
{
    if 0 <= i < s.len() && is_name_start(s[i]) {
        let k = name_end(s, i);
        lemma_name_end_bounds(s, i);
        lemma_skip_blanks_bounds(s, k);
        lemma_token_list_frame(s, skip_blanks(s, k), g.with_token(s.subrange(i, k)));
    }
}

/// `declarations` keeps a grammar that can be written so.
proof fn lemma_declarations_writable(s: Seq<char>, i: int, g: GrammarView)
    requires
        writable(g),
    ensures
        declarations(s, i, g) matches Ok((_, g2)) ==> writable(g2),
    decreases s.len() - i,
{
    if 0 <= i < s.len() && !separator_at(s, i) && s[i] == '%' {
        let e = name_end(s, i + 1);
        let keyword = s.subrange(i + 1, e);
        let j = skip_blanks(s, e);
        lemma_name_end_bounds(s, i + 1);
        lemma_skip_blanks_bounds(s, e);
        if (keyword == token_keyword() || keyword == start_keyword()) && j < s.len()
            && is_name_start(s[j]) {
            if keyword == token_keyword() {
                let (k, g2) = token_list(s, j, g);
                lemma_token_list_bounds(s, j, g);
                lemma_token_list_frame(s, j, g);
                lemma_skip_ws_bounds(s, k);
                lemma_declarations_writable(s, skip_ws(s, k), g2);
            } else {
                let k = name_end(s, j);
                lemma_name_end_bounds(s, j);
                lemma_skip_ws_bounds(s, k);
                lemma_name_read(s, j);
                lemma_declarations_writable(s, skip_ws(s, k), g.with_start(s.subrange(j, k)));
            }
        }
    }
}

/// Symbols that can be written and one more.
proof fn lemma_symbols_writable_push(syms: Seq<SymbolView>, sym: SymbolView)
    requires
        symbols_writable(syms),
        symbol_writable(sym),
    ensures
        symbols_writable(syms.push(sym)),
{
    let grown = syms.push(sym);
    assert forall|k: int| 0 <= k < grown.len() implies symbol_writable(#[trigger] grown[k]) by {
        if k < syms.len() {
            assert(grown[k] == syms[k]);
        }
    }
}

/// `rule_body` keeps a grammar that can be written so, where the rule's name
/// is a name and the symbols gathered so far can be written.
proof fn lemma_rule_body_writable(
    s: Seq<char>,
    i: int,
    name: Seq<char>,
    syms: Seq<SymbolView>,
    g: GrammarView,
)
    requires
        writable(g),
        is_name(name),
        symbols_writable(syms),
    ensures
        rule_body(s, i, name, syms, g) matches Ok((_, g2)) ==> writable(g2),
    decreases s.len() - i,
{
    if 0 <= i < s.len() {
        if s[i] == '|' {
            lemma_skip_ws_bounds(s, i + 1);
            lemma_grammar_with_alternative_writable(g, name, syms);
            lemma_rule_body_writable(
                s,
                skip_ws(s, i + 1),
                name,
                Seq::empty(),
                g.with_alternative(name, syms),
            );
        } else if s[i] == ';' {
            lemma_grammar_with_alternative_writable(g, name, syms);
        } else if is_quote(s[i]) {
            let e = quote_end(s, i + 1, s[i]);
            lemma_quote_end_bounds(s, i + 1, s[i]);
            if !(e >= s.len() || e == i + 1) {
                let t = s.subrange(i + 1, e);
                lemma_skip_ws_bounds(s, e + 1);
                lemma_quoted_read(s, i + 1, s[i]);
                lemma_symbols_writable_push(syms, SymbolView::Terminal(t));
                lemma_rule_body_writable(
                    s,
                    skip_ws(s, e + 1),
                    name,
                    syms.push(SymbolView::Terminal(t)),
                    g.with_token(t),
                );
            }
        } else if is_name_start(s[i]) {
            let k = name_end(s, i);
            let n = s.subrange(i, k);
            lemma_name_end_bounds(s, i);
            lemma_skip_ws_bounds(s, k);
            lemma_name_read(s, i);
            lemma_name_is_quotable(n);
            lemma_symbols_writable_push(syms, named_symbol(g, n));
            lemma_rule_body_writable(s, skip_ws(s, k), name, syms.push(named_symbol(g, n)), g);
        }
    }
}

/// `rules` keeps a grammar that can be written so.
proof fn lemma_rules_writable(s: Seq<char>, i: int, g: GrammarView)
    requires
        writable(g),
    ensures
        rules(s, i, g) matches Ok(g2) ==> writable(g2),
    decreases s.len() - i,
{
    if 0 <= i < s.len() && !separator_at(s, i) && is_name_start(s[i]) {
        let k = name_end(s, i);
        let j = skip_ws(s, k);
        if j < s.len() && s[j] == ':' {
            let name = s.subrange(i, k);
            lemma_name_end_bounds(s, i);
            lemma_skip_ws_bounds(s, k);
            lemma_skip_ws_bounds(s, j + 1);
            lemma_name_read(s, i);
            lemma_rule_body_writable(s, skip_ws(s, j + 1), name, Seq::empty(), g);
            lemma_rule_body_bounds(s, skip_ws(s, j + 1), name, Seq::empty(), g);
            match rule_body(s, skip_ws(s, j + 1), name, Seq::empty(), g) {
                Ok((p, g2)) => {
                    lemma_skip_ws_bounds(s, p);
                    lemma_rules_writable(s, skip_ws(s, p), g2);
                },
                Err(_) => {},
            }
        }
    }
}

/// A grammar read from text can be written.
pub proof fn lemma_parsed_is_writable(s: Seq<char>)
    ensures
        parsed(s) matches Ok(g) ==> writable(g),
{
    let g0 = GrammarView::empty();
    lemma_declarations_writable(s, skip_ws(s, 0), g0);
    match declarations(s, skip_ws(s, 0), g0) {
        Ok((i, g)) => {
            lemma_rules_writable(s, skip_ws(s, i), g);
        },
        Err(_) => {},
    }
}

/// A grammar read from text, written and read again, has the same start
/// symbol and the same rules, unless one of its names stands both for a
/// nonterminal and for a terminal.
pub proof fn lemma_parse_print_parse(s: Seq<char>)
    ensures
        parsed(s) matches Ok(g) ==> (unambiguous(g) ==> (parsed(grammar_text(g)) matches Ok(back)
            && back.start == g.start && back.rules == g.rules)),
{
    lemma_parsed_is_writable(s);
    match parsed(s) {
        Ok(g) => {
            if unambiguous(g) {
                lemma_writable_is_printable(g);
                lemma_print_then_parse(g);
            }
        },
        Err(_) => {},
    }
}

} // verus!
