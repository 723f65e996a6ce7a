//! The grammar as its author declared it: rules, their alternatives, the
//! start symbol and the tokens.

use vstd::prelude::*;
use vstd::string::StringExecFns;
use crate::names::NameSet;

verus! {

/// A symbol on the right-hand side of a rule.
#[derive(Debug, PartialEq, Eq)]
pub enum Symbol {
    /// A token, matched by the lexer.
    Terminal(String),
    /// A reference to a rule.
    Nonterminal(String),
}

/// What a symbol holds: its tag and the text of its name.
pub enum SymbolView {
    Terminal(Seq<char>),
    Nonterminal(Seq<char>),
}

impl View for Symbol {
    type V = SymbolView;

    open spec fn view(&self) -> SymbolView {
        match self {
            Symbol::Terminal(n) => SymbolView::Terminal(n@),
            Symbol::Nonterminal(n) => SymbolView::Nonterminal(n@),
        }
    }
}

impl Symbol {
    /// A symbol that holds what `self` holds.
    pub fn copy(&self) -> (r: Symbol)
        ensures
            r@ == self@,
    {
        match self {
            Symbol::Terminal(n) => Symbol::Terminal(n.clone()),
            Symbol::Nonterminal(n) => Symbol::Nonterminal(n.clone()),
        }
    }
}

/// The terminal named `n`.
pub fn terminal(n: &str) -> (r: Symbol)
    ensures
        r@ == SymbolView::Terminal(n@),
{
    Symbol::Terminal(n.to_owned())
}

/// The nonterminal named `n`.
pub fn nonterminal(n: &str) -> (r: Symbol)
    ensures
        r@ == SymbolView::Nonterminal(n@),
{
    Symbol::Nonterminal(n.to_owned())
}

/// What each of a sequence of symbols holds.
pub open spec fn symbol_views(v: Seq<Symbol>) -> Seq<SymbolView> {
    v.map_values(|s: Symbol| s@)
}

/// What each of a sequence of alternatives holds.
pub open spec fn alternative_views(v: Seq<Vec<Symbol>>) -> Seq<Seq<SymbolView>> {
    v.map_values(|a: Vec<Symbol>| symbol_views(a@))
}

/// A named production with its alternatives in the order in which they were
/// added.
#[derive(Debug, PartialEq, Eq)]
pub struct Rule {
    pub name: String,
    pub alternatives: Vec<Vec<Symbol>>,
}

/// What a rule holds.
pub struct RuleView {
    pub name: Seq<char>,
    pub alternatives: Seq<Seq<SymbolView>>,
}

impl View for Rule {
    type V = RuleView;

    open spec fn view(&self) -> RuleView {
        RuleView { name: self.name@, alternatives: alternative_views(self.alternatives@) }
    }
}

impl Rule {
    /// A rule without alternatives.
    pub fn new(name: String) -> (r: Rule)
        ensures
            r@ == (RuleView { name: name@, alternatives: Seq::empty() }),
    {
        let r = Rule { name, alternatives: Vec::new() };
        assert(r@.alternatives =~= Seq::empty());
        r
    }

    /// Adds an alternative after those that the rule has.
    pub fn add_symbols(&mut self, v: Vec<Symbol>)
        ensures
            final(self)@ == (RuleView {
                name: old(self)@.name,
                alternatives: old(self)@.alternatives.push(symbol_views(v@)),
            }),
    {
        self.alternatives.push(v);
        assert(self@.alternatives =~= old(self)@.alternatives.push(symbol_views(v@)));
    }
}

/// What each of a sequence of rules holds.
pub open spec fn rule_views(v: Seq<Rule>) -> Seq<RuleView> {
    v.map_values(|r: Rule| r@)
}

/// Appending a symbol appends what it holds.
pub proof fn lemma_symbol_views_push(v: Seq<Symbol>, s: Symbol)
    ensures
        symbol_views(v.push(s)) == symbol_views(v).push(s@),
{
    assert(symbol_views(v.push(s)) =~= symbol_views(v).push(s@));
}

/// Appending a rule appends what it holds.
pub proof fn lemma_rule_views_push(v: Seq<Rule>, r: Rule)
    ensures
        rule_views(v.push(r)) == rule_views(v).push(r@),
{
    assert(rule_views(v.push(r)) =~= rule_views(v).push(r@));
}

/// Whether no two of the rules have the same name.
pub open spec fn names_distinct(rules: Seq<RuleView>) -> bool {
    forall|i: int, j: int|
        0 <= i < j < rules.len() ==> (#[trigger] rules[i]).name != (#[trigger] rules[j]).name
}

/// Whether one of the rules is named `name`.
pub open spec fn has_rule_named(rules: Seq<RuleView>, name: Seq<char>) -> bool {
    exists|i: int| 0 <= i < rules.len() && (#[trigger] rules[i]).name == name
}

/// The position of a rule named `name`, where there is one.
pub open spec fn rule_position(rules: Seq<RuleView>, name: Seq<char>) -> int {
    choose|i: int| 0 <= i < rules.len() && (#[trigger] rules[i]).name == name
}

/// The rules after the alternative `syms` was added to the rule `name`: at the
/// end of that rule's alternatives where the rule exists, and else as the one
/// alternative of a new, last rule.
pub open spec fn with_alternative(
    rules: Seq<RuleView>,
    name: Seq<char>,
    syms: Seq<SymbolView>,
) -> Seq<RuleView> {
    if has_rule_named(rules, name) {
        let k = rule_position(rules, name);
        rules.update(k, RuleView { name, alternatives: rules[k].alternatives.push(syms) })
    } else {
        rules.push(RuleView { name, alternatives: seq![syms] })
    }
}

/// Whether the terminal `t` is one of the symbols `alt`.
pub open spec fn symbols_use(alt: Seq<SymbolView>, t: Seq<char>) -> bool {
    alt.contains(SymbolView::Terminal(t))
}

/// Whether the terminal `t` occurs in an alternative of `r`.
pub open spec fn rule_uses(r: RuleView, t: Seq<char>) -> bool {
    exists|j: int| 0 <= j < r.alternatives.len() && symbols_use(#[trigger] r.alternatives[j], t)
}

/// Whether the terminal `t` occurs in one of the rules.
pub open spec fn rules_use(rules: Seq<RuleView>, t: Seq<char>) -> bool {
    exists|i: int| 0 <= i < rules.len() && rule_uses(#[trigger] rules[i], t)
}

/// The terminals that occur in the rules.
pub open spec fn used_terminals(rules: Seq<RuleView>) -> Set<Seq<char>> {
    Set::new(|t: Seq<char>| rules_use(rules, t))
}

/// The terminals among the symbols `alt`.
pub open spec fn terminals_in(alt: Seq<SymbolView>) -> Set<Seq<char>> {
    Set::new(|t: Seq<char>| symbols_use(alt, t))
}

/// The terminals among symbols and one more symbol.
pub proof fn lemma_terminals_in_push(syms: Seq<SymbolView>, sym: SymbolView)
    ensures
        terminals_in(syms.push(sym)) == match sym {
            SymbolView::Terminal(t) => terminals_in(syms).insert(t),
            SymbolView::Nonterminal(_) => terminals_in(syms),
        },
{
    let grown = syms.push(sym);
    assert forall|t: Seq<char>| #[trigger]
        grown.contains(SymbolView::Terminal(t)) == (syms.contains(SymbolView::Terminal(t)) || sym
            == SymbolView::Terminal(t)) by {
        let x = SymbolView::Terminal(t);
        if syms.contains(x) {
            let k = syms.index_of(x);
            assert(grown[k] == x);
        }
        if sym == x {
            assert(grown[syms.len() as int] == x);
        }
    }
    match sym {
        SymbolView::Terminal(t) => {
            assert(terminals_in(grown) =~= terminals_in(syms).insert(t));
        },
        SymbolView::Nonterminal(_) => {
            assert(terminals_in(grown) =~= terminals_in(syms));
        },
    }
}

/// Adding an alternative to a rule adds its terminals to those that the
/// rules use, and nothing else.
pub proof fn lemma_with_alternative_uses(
    rules: Seq<RuleView>,
    name: Seq<char>,
    syms: Seq<SymbolView>,
)
    ensures
        used_terminals(with_alternative(rules, name, syms)) == used_terminals(rules).union(
            terminals_in(syms),
        ),
{
    let after = with_alternative(rules, name, syms);
    assert forall|t: Seq<char>| rules_use(after, t) == (rules_use(rules, t) || symbols_use(
        syms,
        t,
    )) by {
        if has_rule_named(rules, name) {
            let k = rule_position(rules, name);
            let grown = after[k];
            assert(grown.alternatives.last() == syms);
            if rules_use(rules, t) {
                let i = choose|i: int| 0 <= i < rules.len() && rule_uses(#[trigger] rules[i], t);
                let j = choose|j: int|
                    0 <= j < rules[i].alternatives.len() && symbols_use(
                        #[trigger] rules[i].alternatives[j],
                        t,
                    );
                if i == k {
                    assert(grown.alternatives[j] == rules[k].alternatives[j]);
                    assert(rule_uses(after[k], t));
                } else {
                    assert(after[i] == rules[i]);
                    assert(rule_uses(after[i], t));
                }
            }
            if symbols_use(syms, t) {
                assert(symbols_use(grown.alternatives[grown.alternatives.len() - 1], t));
                assert(rule_uses(after[k], t));
            }
            if rules_use(after, t) {
                let i = choose|i: int| 0 <= i < after.len() && rule_uses(#[trigger] after[i], t);
                if i == k {
                    let j = choose|j: int|
                        0 <= j < grown.alternatives.len() && symbols_use(
                            #[trigger] grown.alternatives[j],
                            t,
                        );
                    if j < rules[k].alternatives.len() {
                        assert(rules[k].alternatives[j] == grown.alternatives[j]);
                        assert(rule_uses(rules[k], t));
                    }
                } else {
                    assert(after[i] == rules[i]);
                }
            }
        } else {
            let fresh = after[rules.len() as int];
            assert(fresh.alternatives[0] == syms);
            if rules_use(rules, t) {
                let i = choose|i: int| 0 <= i < rules.len() && rule_uses(#[trigger] rules[i], t);
                assert(after[i] == rules[i]);
                assert(rule_uses(after[i], t));
            }
            if symbols_use(syms, t) {
                assert(rule_uses(after[rules.len() as int], t));
            }
            if rules_use(after, t) {
                let i = choose|i: int| 0 <= i < after.len() && rule_uses(#[trigger] after[i], t);
                if i < rules.len() {
                    assert(after[i] == rules[i]);
                } else {
                    let j = choose|j: int|
                        0 <= j < fresh.alternatives.len() && symbols_use(
                            #[trigger] fresh.alternatives[j],
                            t,
                        );
                    assert(j == 0);
                }
            }
        }
    }
    assert(used_terminals(after) =~= used_terminals(rules).union(terminals_in(syms)));
}

/// What a grammar holds: the declared start symbol, the set of tokens, and
/// the rules in the order in which their names first appeared.
pub struct GrammarView {
    pub start: Option<Seq<char>>,
    pub tokens: Set<Seq<char>>,
    pub rules: Seq<RuleView>,
}

impl GrammarView {
    /// The grammar without start symbol, tokens or rules.
    pub open spec fn empty() -> GrammarView {
        GrammarView { start: None, tokens: Set::empty(), rules: Seq::empty() }
    }

    /// The grammar with `name` as its start symbol.
    pub open spec fn with_start(self, name: Seq<char>) -> GrammarView {
        GrammarView { start: Some(name), ..self }
    }

    /// The grammar with `name` among its tokens.
    pub open spec fn with_token(self, name: Seq<char>) -> GrammarView {
        GrammarView { tokens: self.tokens.insert(name), ..self }
    }

    /// The grammar with one more alternative for the rule `name`.
    pub open spec fn with_alternative(self, name: Seq<char>, syms: Seq<SymbolView>) -> GrammarView {
        GrammarView { rules: with_alternative(self.rules, name, syms), ..self }
    }

    /// The rules by their names.
    pub open spec fn rule_map(self) -> Map<Seq<char>, RuleView> {
        Map::new(
            |n: Seq<char>| has_rule_named(self.rules, n),
            |n: Seq<char>| self.rules[rule_position(self.rules, n)],
        )
    }

    /// Whether every terminal in an alternative of a rule is a token.
    pub open spec fn terminals_are_tokens(self) -> bool {
        used_terminals(self.rules).subset_of(self.tokens)
    }
}

/// Adding an alternative keeps the names of the rules distinct.
pub proof fn lemma_with_alternative_distinct(
    rules: Seq<RuleView>,
    name: Seq<char>,
    syms: Seq<SymbolView>,
)
    requires
        names_distinct(rules),
    ensures
        names_distinct(with_alternative(rules, name, syms)),
{
    let after = with_alternative(rules, name, syms);
    if has_rule_named(rules, name) {
        let k = rule_position(rules, name);
        assert forall|i: int, j: int| 0 <= i < j < after.len() implies (#[trigger] after[i]).name
            != (#[trigger] after[j]).name by {
            assert(after[i].name == rules[i].name);
            assert(after[j].name == rules[j].name);
        }
    } else {
        assert forall|i: int, j: int| 0 <= i < j < after.len() implies (#[trigger] after[i]).name
            != (#[trigger] after[j]).name by {
            assert(after[i].name == rules[i].name);
            if j < rules.len() {
                assert(after[j].name == rules[j].name);
            }
        }
    }
}

/// Why a grammar is not valid.
#[derive(Debug, PartialEq, Eq)]
pub enum GrammarASTError {
    /// The declared start symbol, held here, names no rule.
    InvalidStartRule(String),
}

impl GrammarASTError {
    /// The error in words.
    pub open spec fn spec_message(&self) -> Seq<char> {
        match self {
            GrammarASTError::InvalidStartRule(n) => "Start rule '"@ + n@
                + "' does not appear in grammar"@,
        }
    }

    /// The error in words.
    pub fn message(&self) -> (r: String)
        ensures
            r@ == self.spec_message(),
    {
        match self {
            GrammarASTError::InvalidStartRule(n) => {
                let mut out = String::new();
                out.append("Start rule '");
                out.append(n.as_str());
                out.append("' does not appear in grammar");
                assert(out@ =~= self.spec_message());
                out
            },
        }
    }
}

/// The rules of a grammar in the order in which their names first appeared.
/// No two of them have the same name.
#[derive(Debug)]
pub struct RuleTable {
    rules: Vec<Rule>,
}

impl View for RuleTable {
    type V = Seq<RuleView>;

    closed spec fn view(&self) -> Seq<RuleView> {
        rule_views(self.rules@)
    }
}

impl RuleTable {
    #[verifier::type_invariant]
    spec fn names_differ(&self) -> bool {
        names_distinct(rule_views(self.rules@))
    }

    /// A table without rules.
    pub fn new() -> (r: RuleTable)
        ensures
            r@ == Seq::<RuleView>::empty(),
    {
        let r = RuleTable { rules: Vec::new() };
        assert(r@ =~= Seq::<RuleView>::empty());
        r
    }

    /// The position of the rule named `name`, if there is one.
    fn find(&self, name: &str) -> (r: Option<usize>)
        ensures
            names_distinct(self@),
            match r {
                Some(i) => i < self@.len() && self@[i as int].name == name@ && has_rule_named(
                    self@,
                    name@,
                ) && rule_position(self@, name@) == i,
                None => !has_rule_named(self@, name@),
            },
    {
        let probe = name.to_owned();
        let mut i: usize = 0;
        proof {
            use_type_invariant(self);
        }
        while i < self.rules.len()
            invariant
                names_distinct(self@),
                i <= self.rules.len(),
                probe@ == name@,
                forall|j: int| 0 <= j < i ==> (#[trigger] self@[j]).name != name@,
            decreases self.rules.len() - i,
        {
            if self.rules[i].name == probe {
                proof {
                    assert(self@[i as int].name == name@);
                    let k = rule_position(self@, name@);
                    assert(self@[k].name == name@);
                    if k < i {
                        assert(self@[k].name != self@[i as int].name);
                    }
                    if i < k {
                        assert(self@[i as int].name != self@[k].name);
                    }
                }
                return Some(i);
            }
            i += 1;
        }
        None
    }

    /// The rule named `name`, if there is one.
    pub fn get(&self, name: &str) -> (r: Option<&Rule>)
        ensures
            match r {
                Some(rule) => has_rule_named(self@, name@) && rule@ == self@[rule_position(
                    self@,
                    name@,
                )],
                None => !has_rule_named(self@, name@),
            },
    {
        match self.find(name) {
            Some(i) => Some(&self.rules[i]),
            None => None,
        }
    }

    /// The number of rules. No two of them have the same name.
    pub fn len(&self) -> (r: usize)
        ensures
            r == self@.len(),
            names_distinct(self@),
    {
        proof {
            use_type_invariant(self);
        }
        self.rules.len()
    }

    /// The rule at position `i`.
    pub fn at(&self, i: usize) -> (r: &Rule)
        requires
            i < self@.len(),
        ensures
            r@ == self@[i as int],
    {
        &self.rules[i]
    }

    /// Adds the alternative `syms` to the rule `name`, which is created as
    /// the last rule if it does not exist yet.
    pub fn add_alternative(&mut self, name: String, syms: Vec<Symbol>)
        ensures
            final(self)@ == with_alternative(old(self)@, name@, symbol_views(syms@)),
    {
        let ghost before = self@;
        let ghost sv = symbol_views(syms@);
        let found = self.find(name.as_str());
        proof {
            lemma_with_alternative_distinct(before, name@, sv);
        }
        let mut taken = RuleTable { rules: Vec::new() };
        proof {
            assert(rule_views(taken.rules@) =~= Seq::<RuleView>::empty());
        }
        core::mem::swap(self, &mut taken);
        let mut rules = taken.rules;
        match found {
            Some(i) => {
                rules[i].add_symbols(syms);
                assert(rule_views(rules@) =~= with_alternative(before, name@, sv));
            },
            None => {
                let mut rule = Rule::new(name);
                rule.add_symbols(syms);
                proof {
                    lemma_rule_views_push(rules@, rule);
                    assert(rule@.alternatives =~= seq![sv]);
                }
                rules.push(rule);
            },
        }
        *self = RuleTable { rules };
    }
}

/// A grammar as declared. The start symbol is open to its owner; tokens and
/// rules change only through the methods.
#[derive(Debug)]
pub struct GrammarAST {
    pub start: Option<String>,
    tokens: NameSet,
    rules: RuleTable,
}

impl View for GrammarAST {
    type V = GrammarView;

    closed spec fn view(&self) -> GrammarView {
        GrammarView {
            start: match self.start {
                Some(s) => Some(s@),
                None => None,
            },
            tokens: self.tokens@,
            rules: self.rules@,
        }
    }
}

impl GrammarAST {
    /// A grammar without start symbol, tokens or rules.
    pub fn new() -> (r: GrammarAST)
        ensures
            r@ == GrammarView::empty(),
    {
        GrammarAST { start: None, tokens: NameSet::new(), rules: RuleTable::new() }
    }

    /// Declares `name` as the start symbol.
    pub fn set_start(&mut self, name: String)
        ensures
            final(self)@ == old(self)@.with_start(name@),
    {
        self.start = Some(name);
    }

    /// The declared start symbol, if there is one.
    pub fn start_name(&self) -> (r: Option<String>)
        ensures
            self@.start == match r {
                Some(n) => Some(n@),
                None => None,
            },
    {
        match &self.start {
            Some(n) => Some(n.clone()),
            None => None,
        }
    }

    /// Whether `name` is a token.
    pub fn has_token(&self, name: &str) -> (r: bool)
        ensures
            r == self@.tokens.contains(name@),
    {
        self.tokens.contains(name)
    }

    /// Makes `name` a token.
    pub fn add_token(&mut self, name: String)
        ensures
            final(self)@ == old(self)@.with_token(name@),
    {
        self.tokens.insert(name);
    }

    /// Whether there is a rule named `name`.
    pub fn has_rule(&self, name: &str) -> (r: bool)
        ensures
            r == has_rule_named(self@.rules, name@),
    {
        self.rules.get(name).is_some()
    }

    /// The rule named `name`, if there is one.
    pub fn get_rule(&self, name: &str) -> (r: Option<&Rule>)
        ensures
            match r {
                Some(rule) => self@.rule_map().dom().contains(name@) && rule@
                    == self@.rule_map()[name@],
                None => !self@.rule_map().dom().contains(name@),
            },
    {
        self.rules.get(name)
    }

    /// The number of rules. No two of them have the same name.
    pub fn rule_count(&self) -> (r: usize)
        ensures
            r == self@.rules.len(),
            names_distinct(self@.rules),
    {
        self.rules.len()
    }

    /// The rule at position `i`, in the order of first appearance.
    pub fn rule_at(&self, i: usize) -> (r: &Rule)
        requires
            i < self@.rules.len(),
        ensures
            r@ == self@.rules[i as int],
    {
        self.rules.at(i)
    }

    /// The tokens, in the order in which they were first added.
    pub fn token_names(&self) -> (r: Vec<String>)
        ensures
            crate::names::texts(r@).to_set() == self@.tokens,
            crate::names::texts(r@).no_duplicates(),
    {
        self.tokens.names()
    }

    /// Adds the alternative `syms` to the rule `name`, which is created if it
    /// does not exist yet.
    pub fn add_rule(&mut self, name: String, syms: Vec<Symbol>)
        ensures
            final(self)@ == old(self)@.with_alternative(name@, symbol_views(syms@)),
    {
        self.rules.add_alternative(name, syms);
    }

    /// Checks the grammar: a declared start symbol must name a rule.
    pub fn validate(&self) -> (r: Result<(), GrammarASTError>)
        ensures
            match r {
                Ok(_) => self@.start matches Some(s) ==> has_rule_named(self@.rules, s),
                Err(GrammarASTError::InvalidStartRule(n)) => self@.start == Some(n@)
                    && !has_rule_named(self@.rules, n@),
            },
    {
        match &self.start {
            Some(s) => {
                if self.has_rule(s.as_str()) {
                    Ok(())
                } else {
                    Err(GrammarASTError::InvalidStartRule(s.clone()))
                }
            },
            None => Ok(()),
        }
    }
}

} // verus!
