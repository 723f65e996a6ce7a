//! Grammar text written from a grammar: the inverse of the reader.

use vstd::prelude::*;
use vstd::string::StringExecFns;
use crate::grammar::Grammar;
use crate::grammar_ast::{GrammarView, Rule, RuleView, Symbol, SymbolView, symbol_views};

verus! {

/// The quote between which the terminal `t` is written: a double quote if
/// `t` holds a single quote, and else a single quote.
pub open spec fn quote_for(t: Seq<char>) -> char {
    if t.contains('\'') {
        '"'
    } else {
        '\''
    }
}

/// A symbol as text, with the space that parts it from what follows: a
/// terminal between quotes, a nonterminal as its name.
pub open spec fn symbol_text(sym: SymbolView) -> Seq<char> {
    match sym {
        SymbolView::Terminal(t) => seq![quote_for(t)] + t + seq![quote_for(t), ' '],
        SymbolView::Nonterminal(n) => n + seq![' '],
    }
}

/// The symbols of an alternative as text.
pub open spec fn symbols_text(syms: Seq<SymbolView>) -> Seq<char>
    decreases syms.len(),
{
    if syms.len() == 0 {
        Seq::empty()
    } else {
        symbol_text(syms[0]) + symbols_text(syms.drop_first())
    }
}

/// The alternatives of a rule as text: `| ` between them and `;` behind the
/// last.
pub open spec fn alternatives_text(alts: Seq<Seq<SymbolView>>) -> Seq<char>
    decreases alts.len(),
{
    if alts.len() == 0 {
        seq![';']
    } else if alts.len() == 1 {
        symbols_text(alts[0]) + seq![';']
    } else {
        symbols_text(alts[0]) + seq!['|', ' '] + alternatives_text(alts.drop_first())
    }
}

/// A rule as a line of text: its name, ` : `, and its alternatives.
pub open spec fn rule_text(r: RuleView) -> Seq<char> {
    r.name + seq![' ', ':', ' '] + alternatives_text(r.alternatives) + seq!['\n']
}

/// The rules as text, one line each.
pub open spec fn rules_text(rules: Seq<RuleView>) -> Seq<char>
    decreases rules.len(),
{
    if rules.len() == 0 {
        Seq::empty()
    } else {
        rule_text(rules[0]) + rules_text(rules.drop_first())
    }
}

/// The declaration of the start symbol as a line of text, if there is one.
pub open spec fn start_text(start: Option<Seq<char>>) -> Seq<char> {
    match start {
        Some(n) => seq!['%', 's', 't', 'a', 'r', 't', ' '] + n + seq!['\n'],
        None => Seq::empty(),
    }
}

/// The grammar as text: the start symbol if one is declared, the separator,
/// and the rules. Tokens are not declared: every terminal is written between
/// quotes.
pub open spec fn grammar_text(g: GrammarView) -> Seq<char> {
    start_text(g.start) + seq!['%', '%', '\n'] + rules_text(g.rules)
}

/// The text of symbols followed by one more.
pub proof fn lemma_symbols_text_push(syms: Seq<SymbolView>, sym: SymbolView)
    ensures
        symbols_text(syms.push(sym)) == symbols_text(syms) + symbol_text(sym),
    decreases syms.len(),
{
    if syms.len() == 0 {
        assert(syms.push(sym).drop_first() =~= Seq::<SymbolView>::empty());
        assert(symbols_text(syms.push(sym).drop_first()) =~= Seq::<char>::empty());
        assert(symbols_text(syms.push(sym)) =~= symbol_text(sym));
        assert(symbols_text(syms) + symbol_text(sym) =~= symbol_text(sym));
    } else {
        assert(syms.push(sym).drop_first() =~= syms.drop_first().push(sym));
        lemma_symbols_text_push(syms.drop_first(), sym);
        assert(symbols_text(syms.push(sym)) =~= symbols_text(syms) + symbol_text(sym));
    }
}

/// The text of rules followed by one more.
pub proof fn lemma_rules_text_push(rules: Seq<RuleView>, r: RuleView)
    ensures
        rules_text(rules.push(r)) == rules_text(rules) + rule_text(r),
    decreases rules.len(),
{
    if rules.len() == 0 {
        assert(rules.push(r).drop_first() =~= Seq::<RuleView>::empty());
        assert(rules_text(rules.push(r).drop_first()) =~= Seq::<char>::empty());
        assert(rules_text(rules.push(r)) =~= rule_text(r));
        assert(rules_text(rules) + rule_text(r) =~= rule_text(r));
    } else {
        assert(rules.push(r).drop_first() =~= rules.drop_first().push(r));
        lemma_rules_text_push(rules.drop_first(), r);
        assert(rules_text(rules.push(r)) =~= rules_text(rules) + rule_text(r));
    }
}

/// Whether `t` holds a single quote.
fn has_single_quote(t: &str) -> (r: bool)
    ensures
        r == t@.contains('\''),
{
    let mut found = false;
    for c in it: t.chars()
        invariant
            it.seq() == t@,
            found == it.seq().take(it.index() as int).contains('\''),
    {
        let ghost done = it.seq().take(it.index() as int);
        proof {
            assert(it.seq().take(it.index() + 1) =~= done.push(c));
            if done.contains('\'') {
                let k = done.index_of('\'');
                assert(done.push(c)[k] == '\'');
            }
            if c == '\'' {
                assert(done.push(c)[done.len() as int] == '\'');
            }
        }
        if c == '\'' {
            found = true;
        }
    }
    assert(t@.take(t@.len() as int) =~= t@);
    found
}

/// Appends a symbol as text to `out`.
fn push_symbol(out: &mut String, sym: &Symbol)
    ensures
        final(out)@ == old(out)@ + symbol_text(sym@),
{
    match sym {
        Symbol::Terminal(t) => {
            let q = if has_single_quote(t.as_str()) {
                '"'
            } else {
                '\''
            };
            out.push(q);
            out.append(t.as_str());
            out.push(q);
            out.push(' ');
        },
        Symbol::Nonterminal(n) => {
            out.append(n.as_str());
            out.push(' ');
        },
    }
    assert(out@ =~= old(out)@ + symbol_text(sym@));
}

/// Appends the symbols of an alternative as text to `out`.
fn push_symbols(out: &mut String, syms: &Vec<Symbol>)
    ensures
        final(out)@ == old(out)@ + symbols_text(symbol_views(syms@)),
{
    let ghost all = symbol_views(syms@);
    let mut k: usize = 0;
    proof {
        assert(all.take(0) =~= Seq::<SymbolView>::empty());
        assert(out@ + symbols_text(all.take(0)) =~= out@);
    }
    while k < syms.len()
        invariant
            k <= syms.len(),
            all == symbol_views(syms@),
            out@ == old(out)@ + symbols_text(all.take(k as int)),
        decreases syms.len() - k,
    {
        proof {
            assert(all.take(k + 1) =~= all.take(k as int).push(syms@[k as int]@));
            lemma_symbols_text_push(all.take(k as int), syms@[k as int]@);
        }
        push_symbol(out, &syms[k]);
        assert(out@ =~= old(out)@ + symbols_text(all.take(k + 1)));
        k += 1;
    }
    assert(all.take(k as int) =~= all);
}

/// Appends a rule as a line of text to `out`.
fn push_rule_line(out: &mut String, rule: &Rule)
    ensures
        final(out)@ == old(out)@ + rule_text(rule@),
{
    out.append(rule.name.as_str());
    out.push(' ');
    out.push(':');
    out.push(' ');
    let ghost head = out@;
    let ghost alts = rule@.alternatives;
    let count = rule.alternatives.len();
    if count == 0 {
        out.push(';');
    } else {
        let mut j: usize = 0;
        assert(alts.skip(0) =~= alts);
        while j < count
            invariant
                j <= count,
                count == rule.alternatives.len(),
                count > 0,
                alts == rule@.alternatives,
                alts.len() == count,
                j < count ==> out@ + alternatives_text(alts.skip(j as int)) == head
                    + alternatives_text(alts),
                j == count ==> out@ == head + alternatives_text(alts),
            decreases count - j,
        {
            let ghost before = out@;
            let ghost rest = alts.skip(j as int);
            push_symbols(out, &rule.alternatives[j]);
            proof {
                assert(rest[0] == symbol_views(rule.alternatives@[j as int]@));
                assert(rest.drop_first() =~= alts.skip(j + 1));
            }
            if j + 1 < count {
                out.push('|');
                out.push(' ');
                assert(out@ + alternatives_text(alts.skip(j + 1)) =~= before + alternatives_text(
                    rest,
                ));
            } else {
                out.push(';');
                assert(out@ =~= before + alternatives_text(rest));
            }
            j += 1;
        }
    }
    out.push('\n');
    assert(out@ =~= old(out)@ + rule_text(rule@));
}

impl Grammar {
    /// The grammar as grammar text.
    pub fn to_yacc(&self) -> (r: String)
        ensures
            r@ == grammar_text(self@),
    {
        let mut out = String::new();
        match self.start() {
            Some(n) => {
                out.push('%');
                out.push('s');
                out.push('t');
                out.push('a');
                out.push('r');
                out.push('t');
                out.push(' ');
                out.append(n.as_str());
                out.push('\n');
            },
            None => {},
        }
        out.push('%');
        out.push('%');
        out.push('\n');
        assert(out@ =~= start_text(self@.start) + seq!['%', '%', '\n']);
        let ghost head = out@;
        let count = self.rule_count();
        let mut i: usize = 0;
        proof {
            assert(self@.rules.take(0) =~= Seq::<RuleView>::empty());
            assert(out@ + rules_text(self@.rules.take(0)) =~= out@);
        }
        while i < count
            invariant
                i <= count,
                count == self@.rules.len(),
                out@ == head + rules_text(self@.rules.take(i as int)),
            decreases count - i,
        {
            let rule = self.rule_at(i);
            proof {
                assert(self@.rules.take(i + 1) =~= self@.rules.take(i as int).push(rule@));
                lemma_rules_text_push(self@.rules.take(i as int), rule@);
            }
            push_rule_line(&mut out, rule);
            assert(out@ =~= head + rules_text(self@.rules.take(i + 1)));
            i += 1;
        }
        assert(self@.rules.take(i as int) =~= self@.rules);
        out
    }
}

} // verus!
