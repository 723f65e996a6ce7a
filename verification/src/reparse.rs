//! Reading back what the printer wrote: the text of a printable grammar
//! means that grammar's start symbol and rules.

use vstd::prelude::*;
use crate::grammar::rule_terminals;
use crate::grammar_ast::{
    GrammarView, RuleView, SymbolView, has_rule_named, lemma_with_alternative_distinct,
    names_distinct, rule_position, rule_uses, rules_use, symbols_use, terminals_in,
    used_terminals, with_alternative,
};
use crate::printer::{
    alternatives_text, grammar_text, quote_for, rules_text, start_text, symbol_text,
    symbols_text,
};
use crate::yacc::{
    YaccErrorView, declarations, is_name_char, is_name_start, is_quote, is_ws, name_end,
    named_symbol, parsed, quote_end, rule_body, rules, separator_at, skip_blanks, skip_ws,
    start_keyword, token_keyword,
};

verus! {

/// Whether `n` can be written as a name: a letter or underscore, and then
/// letters, digits and underscores.
pub open spec fn is_name(n: Seq<char>) -> bool {
    &&& n.len() > 0
    &&& is_name_start(n[0])
    &&& forall|k: int| 0 <= k < n.len() ==> is_name_char(#[trigger] n[k])
}

/// Whether `t` can be written between quotes: it is not empty and does not
/// hold both kinds of quote.
pub open spec fn is_quotable(t: Seq<char>) -> bool {
    t.len() > 0 && !(t.contains('\'') && t.contains('"'))
}

/// Whether a symbol of a grammar with the rules `rules` can be written and
/// read back: a terminal must be quotable, and a nonterminal must be a name
/// that is not also the name of a terminal in some rule.
pub open spec fn symbol_printable(sym: SymbolView, rules: Seq<RuleView>) -> bool {
    match sym {
        SymbolView::Terminal(t) => is_quotable(t),
        SymbolView::Nonterminal(n) => is_name(n) && !rules_use(rules, n),
    }
}

/// Whether a grammar can be written and read back: the names of its rules
/// are names and differ, each rule has an alternative, the start symbol is a
/// name, and each symbol is printable.
pub open spec fn printable(g: GrammarView) -> bool {
    &&& names_distinct(g.rules)
    &&& (g.start matches Some(n) ==> is_name(n))
    &&& forall|i: int|
        0 <= i < g.rules.len() ==> is_name((#[trigger] g.rules[i]).name)
            && g.rules[i].alternatives.len() >= 1
    &&& forall|i: int, j: int, k: int|
        0 <= i < g.rules.len() && 0 <= j < g.rules[i].alternatives.len() && 0 <= k
            < g.rules[i].alternatives[j].len() ==> symbol_printable(
            #[trigger] g.rules[i].alternatives[j][k],
            g.rules,
        )
}

/// Whether a symbol can be read back while the tokens stay within `known`.
spec fn symbol_fits(sym: SymbolView, known: Set<Seq<char>>) -> bool {
    match sym {
        SymbolView::Terminal(t) => is_quotable(t) && known.contains(t),
        SymbolView::Nonterminal(n) => is_name(n) && !known.contains(n),
    }
}

spec fn symbols_fit(syms: Seq<SymbolView>, known: Set<Seq<char>>) -> bool {
    forall|k: int| 0 <= k < syms.len() ==> symbol_fits(#[trigger] syms[k], known)
}

spec fn alternatives_fit(alts: Seq<Seq<SymbolView>>, known: Set<Seq<char>>) -> bool {
    forall|j: int| 0 <= j < alts.len() ==> symbols_fit(#[trigger] alts[j], known)
}

spec fn rules_fit(rules: Seq<RuleView>, known: Set<Seq<char>>) -> bool {
    forall|i: int|
        0 <= i < rules.len() ==> is_name((#[trigger] rules[i]).name) && rules[i].alternatives.len()
            >= 1 && alternatives_fit(rules[i].alternatives, known)
}

/// The grammar with `ts` among its tokens.
spec fn with_tokens(g: GrammarView, ts: Set<Seq<char>>) -> GrammarView {
    GrammarView { tokens: g.tokens.union(ts), ..g }
}

/// The grammar after the alternatives `alts` of the rule `name` were read.
spec fn replay_alternatives(
    g: GrammarView,
    name: Seq<char>,
    alts: Seq<Seq<SymbolView>>,
) -> GrammarView
    decreases alts.len(),
{
    if alts.len() == 0 {
        g
    } else {
        replay_alternatives(
            with_tokens(g, terminals_in(alts[0])).with_alternative(name, alts[0]),
            name,
            alts.drop_first(),
        )
    }
}

/// The grammar after the rules `rules` were read.
spec fn replay_rules(g: GrammarView, rules: Seq<RuleView>) -> GrammarView
    decreases rules.len(),
{
    if rules.len() == 0 {
        g
    } else {
        replay_rules(
            replay_alternatives(g, rules[0].name, rules[0].alternatives),
            rules.drop_first(),
        )
    }
}

/// Behind a first part of what stands at `p` stands the rest.
proof fn lemma_skip_past(s: Seq<char>, p: int, a: Seq<char>, b: Seq<char>)
    requires
        0 <= p <= s.len(),
        s.skip(p) == a + b,
    ensures
        p + a.len() <= s.len(),
        s.skip(p + a.len()) == b,
{
    let here = s.skip(p);
    assert(here.len() == a.len() + b.len());
    assert forall|k: int| 0 <= k < b.len() implies s.skip(p + a.len())[k] == b[k] by {
        assert(s[p + a.len() + k] == here[a.len() + k]);
    }
    assert(s.skip(p + a.len()) =~= b);
}

/// Where the name `n` stands at `p` and no character of a name follows it,
/// `name_end` finds its end.
proof fn lemma_name_end_at(s: Seq<char>, p: int, n: Seq<char>)
    requires
        0 <= p,
        p + n.len() <= s.len(),
        s.subrange(p, p + n.len()) == n,
        forall|k: int| 0 <= k < n.len() ==> is_name_char(#[trigger] n[k]),
        p + n.len() == s.len() || !is_name_char(s[p + n.len()]),
    ensures
        name_end(s, p) == p + n.len(),
    decreases n.len(),
{
    if n.len() > 0 {
        assert(s[p] == n[0]);
        let rest = n.drop_first();
        assert(s.subrange(p + 1, p + 1 + rest.len()) =~= rest);
        assert forall|k: int| 0 <= k < rest.len() implies is_name_char(#[trigger] rest[k]) by {
            assert(rest[k] == n[k + 1]);
        }
        lemma_name_end_at(s, p + 1, rest);
    }
}

/// Where the text `t` without the quote `q` stands at `p` and `q` follows it,
/// `quote_end` finds that quote.
proof fn lemma_quote_end_at(s: Seq<char>, p: int, t: Seq<char>, q: char)
    requires
        0 <= p,
        p + t.len() < s.len(),
        s.subrange(p, p + t.len()) == t,
        !t.contains(q),
        s[p + t.len()] == q,
    ensures
        quote_end(s, p, q) == p + t.len(),
    decreases t.len(),
{
    if t.len() > 0 {
        assert(s[p] == t[0]);
        assert(t.contains(t[0]));
        let rest = t.drop_first();
        assert(s.subrange(p + 1, p + 1 + rest.len()) =~= rest);
        assert(!rest.contains(q)) by {
            if rest.contains(q) {
                let k = rest.index_of(q);
                assert(t[k + 1] == q);
            }
        }
        lemma_quote_end_at(s, p + 1, rest, q);
    }
}

/// A quotable text does not hold the quote that is chosen for it.
proof fn lemma_quote_for(t: Seq<char>)
    requires
        is_quotable(t),
    ensures
        !t.contains(quote_for(t)),
        is_quote(quote_for(t)),
{
}

/// The text of a symbol begins with a quote or with the first character of a
/// name, and ends with a space.
proof fn lemma_symbol_text_head(sym: SymbolView, known: Set<Seq<char>>)
    requires
        symbol_fits(sym, known),
    ensures
        symbol_text(sym).len() >= 2,
        !is_ws(symbol_text(sym)[0]),
        is_quote(symbol_text(sym)[0]) || is_name_start(symbol_text(sym)[0]),
{
    match sym {
        SymbolView::Terminal(t) => {
            lemma_quote_for(t);
        },
        SymbolView::Nonterminal(n) => {
            assert(symbol_text(sym)[0] == n[0]);
        },
    }
}

/// The text of symbols followed by `tail` begins as the symbols do, or as
/// `tail` does where there is no symbol.
proof fn lemma_symbols_text_head(syms: Seq<SymbolView>, tail: Seq<char>, known: Set<Seq<char>>)
    requires
        symbols_fit(syms, known),
        tail.len() > 0,
        !is_ws(tail[0]),
    ensures
        (symbols_text(syms) + tail).len() > 0,
        !is_ws((symbols_text(syms) + tail)[0]),
{
    if syms.len() > 0 {
        lemma_symbol_text_head(syms[0], known);
        assert((symbols_text(syms) + tail)[0] == symbol_text(syms[0])[0]);
    } else {
        assert(symbols_text(syms) + tail =~= tail);
    }
}

/// The text of alternatives followed by `tail` does not begin with white
/// space.
proof fn lemma_alternatives_text_head(
    alts: Seq<Seq<SymbolView>>,
    tail: Seq<char>,
    known: Set<Seq<char>>,
)
    requires
        alternatives_fit(alts, known),
    ensures
        (alternatives_text(alts) + tail).len() > 0,
        !is_ws((alternatives_text(alts) + tail)[0]),
{
    if alts.len() == 0 {
        assert((alternatives_text(alts) + tail)[0] == ';');
    } else if alts.len() == 1 {
        lemma_symbols_text_head(alts[0], seq![';'], known);
        assert((alternatives_text(alts) + tail)[0] == (symbols_text(alts[0]) + seq![';'])[0]);
    } else {
        let rest = seq!['|', ' '] + alternatives_text(alts.drop_first());
        lemma_symbols_text_head(alts[0], rest, known);
        assert(alternatives_text(alts) =~= symbols_text(alts[0]) + rest);
        assert((alternatives_text(alts) + tail)[0] == (symbols_text(alts[0]) + rest)[0]);
    }
}

/// The terminals among symbols, by the first of them.
proof fn lemma_terminals_in_first(syms: Seq<SymbolView>)
    requires
        syms.len() > 0,
    ensures
        terminals_in(syms) == match syms[0] {
            SymbolView::Terminal(t) => terminals_in(syms.drop_first()).insert(t),
            SymbolView::Nonterminal(_) => terminals_in(syms.drop_first()),
        },
{
    let rest = syms.drop_first();
    assert forall|t: Seq<char>| #[trigger]
        syms.contains(SymbolView::Terminal(t)) == (rest.contains(SymbolView::Terminal(t))
            || syms[0] == SymbolView::Terminal(t)) by {
        let x = SymbolView::Terminal(t);
        if rest.contains(x) {
            let k = rest.index_of(x);
            assert(syms[k + 1] == x);
        }
        if syms.contains(x) {
            let k = syms.index_of(x);
            if k > 0 {
                assert(rest[k - 1] == x);
            }
        }
    }
    match syms[0] {
        SymbolView::Terminal(t) => {
            assert(terminals_in(syms) =~= terminals_in(rest).insert(t));
        },
        SymbolView::Nonterminal(_) => {
            assert(terminals_in(syms) =~= terminals_in(rest));
        },
    }
}

/// Reading the symbols of an alternative: where their text stands at `p`,
/// followed by `|` or `;`, the body is read as if reading began behind them
/// with the symbols gathered and their terminals made tokens.
proof fn lemma_read_symbols(
    s: Seq<char>,
    p: int,
    name: Seq<char>,
    acc: Seq<SymbolView>,
    g: GrammarView,
    syms: Seq<SymbolView>,
    tail: Seq<char>,
    known: Set<Seq<char>>,
)
    requires
        0 <= p <= s.len(),
        s.skip(p) == symbols_text(syms) + tail,
        tail.len() > 0,
        tail[0] == '|' || tail[0] == ';',
        symbols_fit(syms, known),
        g.tokens.subset_of(known),
    ensures
        rule_body(s, p, name, acc, g) == rule_body(
            s,
            p + symbols_text(syms).len(),
            name,
            acc + syms,
            with_tokens(g, terminals_in(syms)),
        ),
        with_tokens(g, terminals_in(syms)).tokens.subset_of(known),
    decreases syms.len(),
{
    if syms.len() == 0 {
        assert(acc + syms =~= acc);
        assert(terminals_in(syms) =~= Set::<Seq<char>>::empty());
        assert(g.tokens.union(terminals_in(syms)) =~= g.tokens);
    } else {
        let sym = syms[0];
        let rest = syms.drop_first();
        let after = symbols_text(rest) + tail;
        let here = s.skip(p);
        assert(here =~= symbol_text(sym) + after);
        assert(symbols_fit(rest, known)) by {
            assert forall|k: int| 0 <= k < rest.len() implies symbol_fits(
                #[trigger] rest[k],
                known,
            ) by {
                assert(rest[k] == syms[k + 1]);
            }
        }
        lemma_symbols_text_head(rest, tail, known);
        lemma_symbol_text_head(sym, known);
        lemma_terminals_in_first(syms);
        assert(s.len() == p + here.len());
        assert(s[p] == here[0]);
        assert(acc.push(sym) + rest =~= acc + syms);
        match sym {
            SymbolView::Terminal(t) => {
                let q = quote_for(t);
                let tl = t.len() as int;
                lemma_quote_for(t);
                let e = p + 1 + t.len();
                assert(s.subrange(p + 1, e) =~= t) by {
                    assert forall|k: int| 0 <= k < t.len() implies s[p + 1 + k] == t[k] by {
                        assert(s[p + 1 + k] == here[1 + k]);
                    }
                }
                assert(s[e] == q) by {
                    assert(s[e] == here[1 + tl]);
                }
                assert(s[e + 1] == ' ') by {
                    assert(s[e + 1] == here[2 + tl]);
                }
                assert(here[3 + tl] == after[0]);
                assert(s[e + 2] == here[3 + tl]);
                lemma_quote_end_at(s, p + 1, t, q);
                assert(skip_ws(s, e + 1) == e + 2) by {
                    assert(skip_ws(s, e + 2) == e + 2);
                }
                assert(symbol_text(sym).len() == tl + 3);
                lemma_skip_past(s, p, symbol_text(sym), after);
                let g1 = g.with_token(t);
                lemma_read_symbols(s, e + 2, name, acc.push(sym), g1, rest, tail, known);
                assert(g1.tokens.union(terminals_in(rest)) =~= g.tokens.union(terminals_in(syms)));
                assert(with_tokens(g1, terminals_in(rest)) == with_tokens(g, terminals_in(syms)));
                assert(symbol_text(sym).len() == t.len() + 3);
            },
            SymbolView::Nonterminal(n) => {
                let nl = n.len() as int;
                let k = p + n.len();
                assert(s.subrange(p, k) =~= n) by {
                    assert forall|i: int| 0 <= i < n.len() implies s[p + i] == n[i] by {
                        assert(s[p + i] == here[i]);
                    }
                }
                assert(s[k] == ' ') by {
                    assert(s[k] == here[n.len() as int]);
                }
                assert(here[nl + 1] == after[0]);
                assert(s[k + 1] == here[nl + 1]);
                lemma_name_end_at(s, p, n);
                assert(skip_ws(s, k) == k + 1) by {
                    assert(skip_ws(s, k + 1) == k + 1);
                }
                assert(symbol_text(sym).len() == nl + 1);
                lemma_skip_past(s, p, symbol_text(sym), after);
                assert(named_symbol(g, n) == sym);
                lemma_read_symbols(s, k + 1, name, acc.push(sym), g, rest, tail, known);
                assert(symbol_text(sym).len() == n.len() + 1);
            },
        }
    }
}

/// Reading the alternatives of a rule: where their text stands at `p`, the
/// body is read to the end of that text and gives the grammar with each
/// alternative added in turn.
proof fn lemma_read_alternatives(
    s: Seq<char>,
    p: int,
    name: Seq<char>,
    g: GrammarView,
    alts: Seq<Seq<SymbolView>>,
    tail: Seq<char>,
    known: Set<Seq<char>>,
)
    requires
        0 <= p <= s.len(),
        s.skip(p) == alternatives_text(alts) + tail,
        alts.len() >= 1,
        alternatives_fit(alts, known),
        g.tokens.subset_of(known),
    ensures
        rule_body(s, p, name, Seq::empty(), g) == Ok::<(int, GrammarView), YaccErrorView>(
            (p + alternatives_text(alts).len(), replay_alternatives(g, name, alts)),
        ),
        replay_alternatives(g, name, alts).tokens.subset_of(known),
    decreases alts.len(),
{
    let a = alts[0];
    let here = s.skip(p);
    let g1 = with_tokens(g, terminals_in(a));
    let p1 = p + symbols_text(a).len();
    assert(Seq::<SymbolView>::empty() + a =~= a);
    assert(s.len() == p + here.len());
    if alts.len() == 1 {
        let after = seq![';'] + tail;
        assert(here =~= symbols_text(a) + after);
        lemma_read_symbols(s, p, name, Seq::empty(), g, a, after, known);
        assert(s[p1] == ';') by {
            assert(s[p1] == here[symbols_text(a).len() as int]);
        }
        let g2 = g1.with_alternative(name, a);
        assert(alts.drop_first().len() == 0);
        assert(replay_alternatives(g2, name, alts.drop_first()) == g2);
        assert(replay_alternatives(g, name, alts) == g2);
    } else {
        let rest = alts.drop_first();
        let after = seq!['|', ' '] + (alternatives_text(rest) + tail);
        assert(here =~= symbols_text(a) + after);
        lemma_read_symbols(s, p, name, Seq::empty(), g, a, after, known);
        assert(alternatives_fit(rest, known)) by {
            assert forall|j: int| 0 <= j < rest.len() implies symbols_fit(
                #[trigger] rest[j],
                known,
            ) by {
                assert(rest[j] == alts[j + 1]);
            }
        }
        lemma_alternatives_text_head(rest, tail, known);
        let n = symbols_text(a).len() as int;
        assert(s[p1] == '|') by {
            assert(s[p1] == here[n]);
        }
        assert(s[p1 + 1] == ' ') by {
            assert(s[p1 + 1] == here[n + 1]);
        }
        assert(s[p1 + 2] == (alternatives_text(rest) + tail)[0]) by {
            assert(s[p1 + 2] == here[n + 2]);
            assert(here[n + 2] == after[2]);
        }
        assert(skip_ws(s, p1 + 1) == p1 + 2) by {
            assert(skip_ws(s, p1 + 2) == p1 + 2);
        }
        assert(here =~= (symbols_text(a) + seq!['|', ' ']) + (alternatives_text(rest) + tail));
        lemma_skip_past(s, p, symbols_text(a) + seq!['|', ' '], alternatives_text(rest) + tail);
        let g2 = g1.with_alternative(name, a);
        lemma_read_alternatives(s, p1 + 2, name, g2, rest, tail, known);
        assert(alternatives_text(alts).len() == n + 2 + alternatives_text(rest).len());
    }
}

/// Reading rules: where their text stands at `p` and ends the text, the
/// rules are read to the end and give the grammar with each rule added in
/// turn.
proof fn lemma_read_rules(
    s: Seq<char>,
    p: int,
    g: GrammarView,
    rs: Seq<RuleView>,
    known: Set<Seq<char>>,
)
    requires
        0 <= p <= s.len(),
        s.skip(p) == rules_text(rs),
        rules_fit(rs, known),
        g.tokens.subset_of(known),
    ensures
        rules(s, p, g) == Ok::<GrammarView, YaccErrorView>(replay_rules(g, rs)),
    decreases rs.len(),
{
    let here = s.skip(p);
    assert(s.len() == p + here.len());
    if rs.len() > 0 {
        let r = rs[0];
        let rest = rs.drop_first();
        let n = r.name;
        let alts_text = alternatives_text(r.alternatives);
        let nl = n.len() as int;
        let al = alts_text.len() as int;
        let tail = seq!['\n'] + rules_text(rest);
        assert(here =~= n + (seq![' ', ':', ' '] + (alts_text + tail)));
        assert(rules_fit(rest, known)) by {
            assert forall|i: int| 0 <= i < rest.len() implies is_name((#[trigger] rest[i]).name)
                && rest[i].alternatives.len() >= 1 && alternatives_fit(
                rest[i].alternatives,
                known,
            ) by {
                assert(rest[i] == rs[i + 1]);
            }
        }
        assert(s[p] == n[0]) by {
            assert(s[p] == here[0]);
        }
        let k = p + n.len();
        assert(s.subrange(p, k) =~= n) by {
            assert forall|i: int| 0 <= i < n.len() implies s[p + i] == n[i] by {
                assert(s[p + i] == here[i]);
            }
        }
        assert(s[k] == ' ') by {
            assert(s[k] == here[n.len() as int]);
        }
        assert(s[k + 1] == ':') by {
            assert(s[k + 1] == here[nl + 1]);
        }
        assert(s[k + 2] == ' ') by {
            assert(s[k + 2] == here[nl + 2]);
        }
        lemma_alternatives_text_head(r.alternatives, tail, known);
        assert(s[k + 3] == (alts_text + tail)[0]) by {
            assert(s[k + 3] == here[nl + 3]);
        }
        lemma_name_end_at(s, p, n);
        assert(skip_ws(s, k) == k + 1) by {
            assert(skip_ws(s, k + 1) == k + 1);
        }
        assert(skip_ws(s, k + 2) == k + 3) by {
            assert(skip_ws(s, k + 3) == k + 3);
        }
        assert(here =~= (n + seq![' ', ':', ' ']) + (alts_text + tail));
        lemma_skip_past(s, p, n + seq![' ', ':', ' '], alts_text + tail);
        lemma_read_alternatives(s, k + 3, n, g, r.alternatives, tail, known);
        let p2 = k + 3 + alts_text.len();
        let g2 = replay_alternatives(g, n, r.alternatives);
        assert(s[p2] == '\n') by {
            assert(s[p2] == here[nl + 3 + al]);
        }
        assert(here =~= (n + seq![' ', ':', ' '] + alts_text + seq!['\n']) + rules_text(rest));
        lemma_skip_past(s, p, n + seq![' ', ':', ' '] + alts_text + seq!['\n'], rules_text(rest));
        assert(skip_ws(s, p2) == p2 + 1) by {
            if rest.len() > 0 {
                let next = rest[0].name;
                assert(rules_text(rest)[0] == next[0]);
                assert(s[p2 + 1] == s.skip(p2 + 1)[0]);
                assert(skip_ws(s, p2 + 1) == p2 + 1);
            } else {
                assert(p2 + 1 == s.len());
                assert(skip_ws(s, p2 + 1) == p2 + 1);
            }
        }
        lemma_read_rules(s, p2 + 1, g2, rest, known);
        assert(!separator_at(s, p));
    }
}

/// Reading the alternatives of a rule that is the last of the rules so far
/// appends them to that rule.
proof fn lemma_replay_grows_last(
    g: GrammarView,
    base: Seq<RuleView>,
    name: Seq<char>,
    pre: Seq<Seq<SymbolView>>,
    alts: Seq<Seq<SymbolView>>,
)
    requires
        g.rules == base.push(RuleView { name, alternatives: pre }),
        names_distinct(g.rules),
    ensures
        replay_alternatives(g, name, alts).rules == base.push(
            RuleView { name, alternatives: pre + alts },
        ),
        replay_alternatives(g, name, alts).start == g.start,
    decreases alts.len(),
{
    if alts.len() == 0 {
        assert(pre + alts =~= pre);
    } else {
        let a = alts[0];
        let g1 = with_tokens(g, terminals_in(a)).with_alternative(name, a);
        let last = base.len() as int;
        assert(g.rules[last].name == name);
        let k = rule_position(g.rules, name);
        assert(g.rules[k].name == name);
        if k < last {
            assert(g.rules[k].name != g.rules[last].name);
        }
        assert(k == last);
        assert(g1.rules =~= base.push(RuleView { name, alternatives: pre.push(a) }));
        lemma_with_alternative_distinct(g.rules, name, a);
        lemma_replay_grows_last(g1, base, name, pre.push(a), alts.drop_first());
        assert(pre.push(a) + alts.drop_first() =~= pre + alts);
    }
}

/// Reading the rules `rs` after the rules of `g` appends them, where all the
/// names differ.
proof fn lemma_replay_appends(g: GrammarView, rs: Seq<RuleView>)
    requires
        names_distinct(g.rules + rs),
        forall|i: int| 0 <= i < rs.len() ==> (#[trigger] rs[i]).alternatives.len() >= 1,
    ensures
        replay_rules(g, rs).rules == g.rules + rs,
        replay_rules(g, rs).start == g.start,
    decreases rs.len(),
{
    let all = g.rules + rs;
    if rs.len() == 0 {
        assert(g.rules + rs =~= g.rules);
    } else {
        let r = rs[0];
        let rest = rs.drop_first();
        let a = r.alternatives[0];
        let at = g.rules.len() as int;
        assert(all[at] == r);
        assert(!has_rule_named(g.rules, r.name)) by {
            if has_rule_named(g.rules, r.name) {
                let i = rule_position(g.rules, r.name);
                assert(all[i] == g.rules[i]);
                assert(all[i].name != all[at].name);
            }
        }
        assert(names_distinct(g.rules)) by {
            assert forall|i: int, j: int| 0 <= i < j < g.rules.len() implies (
            #[trigger] g.rules[i]).name != (#[trigger] g.rules[j]).name by {
                assert(all[i] == g.rules[i]);
                assert(all[j] == g.rules[j]);
            }
        }
        let g1 = with_tokens(g, terminals_in(a)).with_alternative(r.name, a);
        lemma_with_alternative_distinct(g.rules, r.name, a);
        assert(g1.rules == g.rules.push(RuleView { name: r.name, alternatives: seq![a] }));
        lemma_replay_grows_last(g1, g.rules, r.name, seq![a], r.alternatives.drop_first());
        assert(seq![a] + r.alternatives.drop_first() =~= r.alternatives);
        let g2 = replay_alternatives(g, r.name, r.alternatives);
        assert(g2.rules == g.rules.push(r));
        assert(g2.rules + rest =~= all);
        assert forall|i: int| 0 <= i < rest.len() implies (#[trigger] rest[i]).alternatives.len()
            >= 1 by {
            assert(rest[i] == rs[i + 1]);
        }
        lemma_replay_appends(g2, rest);
    }
}

/// The terminals of alternatives, by the first of them.
proof fn lemma_rule_terminals_first(name: Seq<char>, alts: Seq<Seq<SymbolView>>)
    requires
        alts.len() > 0,
    ensures
        rule_terminals(RuleView { name, alternatives: alts }) == terminals_in(alts[0]).union(
            rule_terminals(RuleView { name, alternatives: alts.drop_first() }),
        ),
{
    let whole = RuleView { name, alternatives: alts };
    let rest = RuleView { name, alternatives: alts.drop_first() };
    assert forall|t: Seq<char>| rule_uses(whole, t) == (symbols_use(alts[0], t) || rule_uses(
        rest,
        t,
    )) by {
        if rule_uses(rest, t) {
            let j = choose|j: int|
                0 <= j < rest.alternatives.len() && symbols_use(#[trigger] rest.alternatives[j], t);
            assert(whole.alternatives[j + 1] == rest.alternatives[j]);
        }
        if symbols_use(alts[0], t) {
            assert(symbols_use(whole.alternatives[0], t));
        }
        if rule_uses(whole, t) {
            let j = choose|j: int|
                0 <= j < whole.alternatives.len() && symbols_use(
                    #[trigger] whole.alternatives[j],
                    t,
                );
            if j > 0 {
                assert(rest.alternatives[j - 1] == whole.alternatives[j]);
            }
        }
    }
    assert(rule_terminals(whole) =~= terminals_in(alts[0]).union(rule_terminals(rest)));
}

/// The terminals of rules, by the first of them.
proof fn lemma_used_terminals_first(rs: Seq<RuleView>)
    requires
        rs.len() > 0,
    ensures
        used_terminals(rs) == rule_terminals(rs[0]).union(used_terminals(rs.drop_first())),
{
    let rest = rs.drop_first();
    assert forall|t: Seq<char>| rules_use(rs, t) == (rule_uses(rs[0], t) || rules_use(rest, t)) by {
        if rules_use(rest, t) {
            let i = choose|i: int| 0 <= i < rest.len() && rule_uses(#[trigger] rest[i], t);
            assert(rs[i + 1] == rest[i]);
        }
        if rules_use(rs, t) {
            let i = choose|i: int| 0 <= i < rs.len() && rule_uses(#[trigger] rs[i], t);
            if i > 0 {
                assert(rest[i - 1] == rs[i]);
            }
        }
    }
    assert(used_terminals(rs) =~= rule_terminals(rs[0]).union(used_terminals(rest)));
}

/// Reading alternatives makes their terminals tokens, and no others.
proof fn lemma_replay_alternatives_tokens(
    g: GrammarView,
    name: Seq<char>,
    alts: Seq<Seq<SymbolView>>,
)
    ensures
        replay_alternatives(g, name, alts).tokens == g.tokens.union(
            rule_terminals(RuleView { name, alternatives: alts }),
        ),
    decreases alts.len(),
{
    let whole = RuleView { name, alternatives: alts };
    if alts.len() == 0 {
        assert(rule_terminals(whole) =~= Set::<Seq<char>>::empty());
        assert(g.tokens.union(rule_terminals(whole)) =~= g.tokens);
    } else {
        let g1 = with_tokens(g, terminals_in(alts[0])).with_alternative(name, alts[0]);
        lemma_replay_alternatives_tokens(g1, name, alts.drop_first());
        lemma_rule_terminals_first(name, alts);
        assert(g1.tokens.union(
            rule_terminals(RuleView { name, alternatives: alts.drop_first() }),
        ) =~= g.tokens.union(rule_terminals(whole)));
    }
}

/// Reading rules makes their terminals tokens, and no others.
proof fn lemma_replay_rules_tokens(g: GrammarView, rs: Seq<RuleView>)
    ensures
        replay_rules(g, rs).tokens == g.tokens.union(used_terminals(rs)),
    decreases rs.len(),
{
    if rs.len() == 0 {
        assert(used_terminals(rs) =~= Set::<Seq<char>>::empty());
        assert(g.tokens.union(used_terminals(rs)) =~= g.tokens);
    } else {
        let r = rs[0];
        let g1 = replay_alternatives(g, r.name, r.alternatives);
        lemma_replay_alternatives_tokens(g, r.name, r.alternatives);
        assert(RuleView { name: r.name, alternatives: r.alternatives } == r);
        lemma_replay_rules_tokens(g1, rs.drop_first());
        lemma_used_terminals_first(rs);
        assert(g1.tokens.union(used_terminals(rs.drop_first())) =~= g.tokens.union(
            used_terminals(rs),
        ));
    }
}

/// A printable grammar fits the terminals that its rules use.
proof fn lemma_printable_fits(g: GrammarView)
    requires
        printable(g),
    ensures
        rules_fit(g.rules, used_terminals(g.rules)),
{
    let known = used_terminals(g.rules);
    assert forall|i: int| 0 <= i < g.rules.len() implies alternatives_fit(
        (#[trigger] g.rules[i]).alternatives,
        known,
    ) by {
        let alts = g.rules[i].alternatives;
        assert forall|j: int| 0 <= j < alts.len() implies symbols_fit(#[trigger] alts[j], known) by {
            assert forall|k: int| 0 <= k < alts[j].len() implies symbol_fits(
                #[trigger] alts[j][k],
                known,
            ) by {
                let sym = g.rules[i].alternatives[j][k];
                assert(symbol_printable(sym, g.rules));
                match sym {
                    SymbolView::Terminal(t) => {
                        assert(symbols_use(g.rules[i].alternatives[j], t));
                        assert(crate::grammar_ast::rule_uses(g.rules[i], t));
                        assert(rules_use(g.rules, t));
                    },
                    SymbolView::Nonterminal(_) => {},
                }
            }
        }
    }
}

/// The text of a printable grammar, read back, gives the start symbol and the
/// rules of that grammar: the same names and the same alternatives, symbol by
/// symbol, in the same order. Its tokens are the terminals that the rules use.
pub proof fn lemma_print_then_parse(g: GrammarView)
    requires
        printable(g),
    ensures
        parsed(grammar_text(g)) matches Ok(back) && back.start == g.start && back.rules
            == g.rules && back.tokens == used_terminals(g.rules),
{
    let s = grammar_text(g);
    let known = used_terminals(g.rules);
    let body = seq!['%', '%', '\n'] + rules_text(g.rules);
    lemma_printable_fits(g);
    let g0 = GrammarView::empty();
    let p: int = start_text(g.start).len() as int;
    let g1 = GrammarView { start: g.start, ..g0 };
    assert(s =~= start_text(g.start) + body);
    assert(s[p] == '%' && s[p + 1] == '%' && s[p + 2] == '\n') by {
        assert(s[p] == body[0]);
        assert(s[p + 1] == body[1]);
        assert(s[p + 2] == body[2]);
    }
    assert(declarations(s, 0, g0) == Ok::<(int, GrammarView), YaccErrorView>((p + 2, g1))) by {
        match g.start {
            Some(n) => {
                let head = seq!['%', 's', 't', 'a', 'r', 't', ' '];
                let nl = n.len() as int;
                assert(start_text(g.start) =~= head + (n + seq!['\n']));
                assert forall|k: int| 0 <= k < 7 implies s[k] == head[k] by {}
                assert(s.subrange(1, 6) =~= start_keyword());
                assert(start_keyword() != token_keyword()) by {
                    assert(start_keyword()[0] != token_keyword()[0]);
                }
                lemma_name_end_at(s, 1, start_keyword());
                assert(skip_blanks(s, 6) == 7) by {
                    assert(s[7] == n[0]);
                    assert(skip_blanks(s, 7) == 7);
                }
                assert(s.subrange(7, 7 + nl) =~= n) by {
                    assert forall|k: int| 0 <= k < n.len() implies s[7 + k] == n[k] by {}
                }
                assert(s[7 + nl] == '\n');
                lemma_name_end_at(s, 7, n);
                assert(p == 8 + n.len());
                assert(skip_ws(s, 7 + nl) == p) by {
                    assert(skip_ws(s, p) == p);
                }
                assert(g0.with_start(n) == g1);
                assert(separator_at(s, p));
                assert(declarations(s, p, g1) == Ok::<(int, GrammarView), YaccErrorView>(
                    (p + 2, g1),
                ));
                assert(!separator_at(s, 0));
            },
            None => {
                assert(g1 == g0);
            },
        }
    }
    assert(skip_ws(s, 0) == 0);
    assert(s =~= (start_text(g.start) + seq!['%', '%', '\n']) + rules_text(g.rules));
    assert(s.skip(0) =~= s);
    lemma_skip_past(s, 0, start_text(g.start) + seq!['%', '%', '\n'], rules_text(g.rules));
    assert(skip_ws(s, p + 2) == p + 3) by {
        if g.rules.len() > 0 {
            assert(rules_text(g.rules)[0] == g.rules[0].name[0]);
            assert(s[p + 3] == s.skip(p + 3)[0]);
            assert(skip_ws(s, p + 3) == p + 3);
        } else {
            assert(p + 3 == s.len());
            assert(skip_ws(s, p + 3) == p + 3);
        }
    }
    lemma_read_rules(s, p + 3, g1, g.rules, known);
    assert(g1.rules + g.rules =~= g.rules);
    lemma_replay_appends(g1, g.rules);
    lemma_replay_rules_tokens(g1, g.rules);
    assert(g1.tokens.union(used_terminals(g.rules)) =~= used_terminals(g.rules));
}

} // verus!
