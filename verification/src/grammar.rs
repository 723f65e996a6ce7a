//! The canonical grammar: the rules of a declared grammar together with all
//! of its tokens, those that were declared and those that the rules use.

use vstd::prelude::*;
use crate::grammar_ast::{
    GrammarAST, GrammarView, Rule, RuleView, Symbol, SymbolView,
    lemma_rule_views_push, lemma_symbol_views_push, lemma_terminals_in_push, names_distinct, rule_uses, rule_views,
    rules_use, symbol_views, symbols_use, terminals_in, used_terminals,
};
use crate::names::{NameSet, texts};

verus! {

/// The terminals that occur in the rule `r`.
pub open spec fn rule_terminals(r: RuleView) -> Set<Seq<char>> {
    Set::new(|t: Seq<char>| rule_uses(r, t))
}

/// A grammar in canonical form, as `ast_to_grammar` makes it: no two rules
/// have the same name, and every terminal that a rule uses is a token.
#[derive(Debug)]
pub struct Grammar {
    start: Option<String>,
    tokens: NameSet,
    rules: Vec<Rule>,
}

impl View for Grammar {
    type V = GrammarView;

    closed spec fn view(&self) -> GrammarView {
        GrammarView {
            start: match self.start {
                Some(s) => Some(s@),
                None => None,
            },
            tokens: self.tokens@,
            rules: rule_views(self.rules@),
        }
    }
}

impl Grammar {
    /// The start symbol, if one was declared.
    pub fn start(&self) -> (r: Option<&String>)
        ensures
            self@.start == match r {
                Some(n) => Some(n@),
                None => None,
            },
    {
        match &self.start {
            Some(n) => Some(n),
            None => None,
        }
    }

    /// Whether `name` is a token.
    pub fn has_token(&self, name: &str) -> (r: bool)
        ensures
            r == self@.tokens.contains(name@),
    {
        self.tokens.contains(name)
    }

    /// The tokens, in the order in which they were found.
    pub fn token_names(&self) -> (r: Vec<String>)
        ensures
            texts(r@).to_set() == self@.tokens,
    {
        self.tokens.names()
    }

    /// The number of rules.
    pub fn rule_count(&self) -> (r: usize)
        ensures
            r == self@.rules.len(),
    {
        self.rules.len()
    }

    /// The rule at position `i`, in the order of first appearance.
    pub fn rule_at(&self, i: usize) -> (r: &Rule)
        requires
            i < self@.rules.len(),
        ensures
            r@ == self@.rules[i as int],
    {
        &self.rules[i]
    }
}

/// The terminals of a rule and one more alternative.
proof fn lemma_rule_terminals_grow(r: RuleView, alt: Seq<SymbolView>)
    ensures
        rule_terminals(RuleView { name: r.name, alternatives: r.alternatives.push(alt) })
            == rule_terminals(r).union(terminals_in(alt)),
{
    let grown = RuleView { name: r.name, alternatives: r.alternatives.push(alt) };
    assert forall|t: Seq<char>| rule_uses(grown, t) == (rule_uses(r, t) || symbols_use(alt, t)) by {
        if rule_uses(r, t) {
            let j = choose|j: int|
                0 <= j < r.alternatives.len() && symbols_use(#[trigger] r.alternatives[j], t);
            assert(grown.alternatives[j] == r.alternatives[j]);
        }
        if symbols_use(alt, t) {
            assert(grown.alternatives[r.alternatives.len() as int] == alt);
        }
        if rule_uses(grown, t) {
            let j = choose|j: int|
                0 <= j < grown.alternatives.len() && symbols_use(
                    #[trigger] grown.alternatives[j],
                    t,
                );
            if j < r.alternatives.len() {
                assert(grown.alternatives[j] == r.alternatives[j]);
            }
        }
    }
    assert(rule_terminals(grown) =~= rule_terminals(r).union(terminals_in(alt)));
}

/// The terminals of rules and one more rule.
proof fn lemma_used_terminals_grow(rules: Seq<RuleView>, r: RuleView)
    ensures
        used_terminals(rules.push(r)) == used_terminals(rules).union(rule_terminals(r)),
{
    let grown = rules.push(r);
    assert forall|t: Seq<char>| rules_use(grown, t) == (rules_use(rules, t) || rule_uses(r, t)) by {
        if rules_use(rules, t) {
            let i = choose|i: int| 0 <= i < rules.len() && rule_uses(#[trigger] rules[i], t);
            assert(grown[i] == rules[i]);
        }
        if rule_uses(r, t) {
            assert(grown[rules.len() as int] == r);
        }
        if rules_use(grown, t) {
            let i = choose|i: int| 0 <= i < grown.len() && rule_uses(#[trigger] grown[i], t);
            if i < rules.len() {
                assert(grown[i] == rules[i]);
            }
        }
    }
    assert(used_terminals(grown) =~= used_terminals(rules).union(rule_terminals(r)));
}

/// Copies the symbols of an alternative and makes each terminal a token.
fn copy_symbols(alt: &Vec<Symbol>, tokens: &mut NameSet) -> (r: Vec<Symbol>)
    ensures
        symbol_views(r@) == symbol_views(alt@),
        final(tokens)@ == old(tokens)@.union(terminals_in(symbol_views(alt@))),
{
    let ghost all = symbol_views(alt@);
    let mut out: Vec<Symbol> = Vec::new();
    let mut k: usize = 0;
    proof {
        assert(all.take(0) =~= Seq::<SymbolView>::empty());
        assert(terminals_in(all.take(0)) =~= Set::<Seq<char>>::empty());
        assert(tokens@.union(terminals_in(all.take(0))) =~= tokens@);
        assert(symbol_views(out@) =~= all.take(0));
    }
    while k < alt.len()
        invariant
            k <= alt.len(),
            all == symbol_views(alt@),
            symbol_views(out@) == all.take(k as int),
            tokens@ == old(tokens)@.union(terminals_in(all.take(k as int))),
        decreases alt.len() - k,
    {
        let sym = alt[k].copy();
        proof {
            lemma_symbol_views_push(out@, sym);
            assert(all.take(k + 1) =~= all.take(k as int).push(sym@));
            lemma_terminals_in_push(all.take(k as int), sym@);
        }
        match &sym {
            Symbol::Terminal(t) => {
                tokens.insert(t.clone());
                assert(tokens@ =~= old(tokens)@.union(terminals_in(all.take(k + 1))));
            },
            Symbol::Nonterminal(_) => {},
        }
        out.push(sym);
        k += 1;
    }
    assert(all.take(k as int) =~= all);
    out
}

/// Copies a rule and makes each terminal in it a token.
fn copy_rule(rule: &Rule, tokens: &mut NameSet) -> (r: Rule)
    ensures
        r@ == rule@,
        final(tokens)@ == old(tokens)@.union(rule_terminals(rule@)),
{
    let mut out = Rule::new(rule.name.clone());
    let ghost all = rule@.alternatives;
    let mut j: usize = 0;
    proof {
        let none = RuleView { name: rule@.name, alternatives: all.take(0) };
        assert(all.take(0) =~= Seq::<Seq<SymbolView>>::empty());
        assert(rule_terminals(none) =~= Set::<Seq<char>>::empty());
        assert(tokens@.union(rule_terminals(none)) =~= tokens@);
    }
    while j < rule.alternatives.len()
        invariant
            j <= rule.alternatives.len(),
            all == rule@.alternatives,
            all.len() == rule.alternatives.len(),
            out@ == (RuleView { name: rule@.name, alternatives: all.take(j as int) }),
            tokens@ == old(tokens)@.union(
                rule_terminals(RuleView { name: rule@.name, alternatives: all.take(j as int) }),
            ),
        decreases rule.alternatives.len() - j,
    {
        let ghost so_far = RuleView { name: rule@.name, alternatives: all.take(j as int) };
        let syms = copy_symbols(&rule.alternatives[j], tokens);
        proof {
            assert(all[j as int] == symbol_views(rule.alternatives@[j as int]@));
            assert(all.take(j + 1) =~= all.take(j as int).push(all[j as int]));
            lemma_rule_terminals_grow(so_far, all[j as int]);
            assert(tokens@ =~= old(tokens)@.union(
                rule_terminals(RuleView { name: rule@.name, alternatives: all.take(j + 1) }),
            ));
        }
        out.add_symbols(syms);
        j += 1;
    }
    assert(all.take(j as int) =~= all);
    out
}

/// The canonical form of a declared grammar: the same start symbol and the
/// same rules, and as tokens those that were declared together with every
/// terminal that a rule uses.
pub fn ast_to_grammar(ast: &GrammarAST) -> (g: Grammar)
    ensures
        g@.start == ast@.start,
        g@.rules == ast@.rules,
        g@.tokens == ast@.tokens.union(used_terminals(ast@.rules)),
        names_distinct(g@.rules),
        g@.terminals_are_tokens(),
{
    let declared = ast.token_names();
    let mut tokens = NameSet::new();
    let mut i: usize = 0;
    assert(texts(declared@).take(0) =~= Seq::<Seq<char>>::empty());
    assert(texts(declared@).take(0).to_set() =~= Set::<Seq<char>>::empty());
    while i < declared.len()
        invariant
            i <= declared.len(),
            tokens@ == texts(declared@).take(i as int).to_set(),
        decreases declared.len() - i,
    {
        proof {
            let names = texts(declared@);
            assert(names.take(i + 1) =~= names.take(i as int).push(declared@[i as int]@));
            names.take(i as int).lemma_push_to_set_commute(declared@[i as int]@);
        }
        tokens.insert(declared[i].clone());
        i += 1;
    }
    assert(texts(declared@).take(i as int) =~= texts(declared@));
    let mut rules: Vec<Rule> = Vec::new();
    let mut k: usize = 0;
    let count = ast.rule_count();
    proof {
        assert(ast@.rules.take(0) =~= Seq::<RuleView>::empty());
        assert(used_terminals(ast@.rules.take(0)) =~= Set::<Seq<char>>::empty());
        assert(tokens@.union(used_terminals(ast@.rules.take(0))) =~= tokens@);
        assert(rule_views(rules@) =~= ast@.rules.take(0));
    }
    while k < count
        invariant
            k <= count,
            count == ast@.rules.len(),
            rule_views(rules@) == ast@.rules.take(k as int),
            tokens@ == ast@.tokens.union(used_terminals(ast@.rules.take(k as int))),
        decreases count - k,
    {
        let ghost before = tokens@;
        let rule = copy_rule(ast.rule_at(k), &mut tokens);
        proof {
            lemma_rule_views_push(rules@, rule);
            assert(ast@.rules.take(k + 1) =~= ast@.rules.take(k as int).push(rule@));
            lemma_used_terminals_grow(ast@.rules.take(k as int), rule@);
            assert(tokens@ =~= ast@.tokens.union(used_terminals(ast@.rules.take(k + 1))));
        }
        rules.push(rule);
        k += 1;
    }
    assert(ast@.rules.take(k as int) =~= ast@.rules);
    Grammar { start: ast.start_name(), tokens, rules }
}

} // verus!
