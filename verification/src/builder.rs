//! The generator: from a lexer's rules and a grammar's token ids to the text
//! of a module that builds the lexer.

use vstd::prelude::*;
use vstd::string::StringExecFns;
use crate::idmap::{IdMap, StorageInt, lemma_same_map_same_order};
use crate::lexer::{
    LexerRule, LexerRuleView, assign_ids, missing_from_lexer, missing_from_parser, reconcile,
    rule_views,
};
use crate::names::NameSet;
use crate::text::{ascii_upper, decimal, escaped, push_ascii_upper, push_decimal, push_escaped};
use crate::trusted::{
    debug_quote, debug_quoted, pattern_is_match, regex_compiles, regex_is_match,
};

verus! {

/// The kinds of lexer that can be generated.
#[derive(Clone, Copy, Debug, PartialEq, Eq, Structural)]
pub enum LexerKind {
    LRNonStreamingLexer,
}

/// The regular expression that a token name must match to get a constant.
pub open spec fn token_id_pattern() -> Seq<char> {
    "^[a-zA-Z_][a-zA-Z_0-9]*$"@
}

/// The name of the lexer definition type for a kind of lexer.
pub open spec fn lexerdef_name(kind: LexerKind) -> Seq<char> {
    match kind {
        LexerKind::LRNonStreamingLexer => "LRNonStreamingLexerDef"@,
    }
}

/// The text that opens the module, up to the list of rules.
pub open spec fn header_text(mod_name: Seq<char>, kind: LexerKind, storage: Seq<char>) -> Seq<
    char,
> {
    "mod "@ + mod_name
        + " {\nuse lrlex::{LexerDef, LRNonStreamingLexerDef, Rule};\n\n#[allow(dead_code)]\npub fn lexerdef() -> "@
        + lexerdef_name(kind) + "<"@ + storage + ">"@ + " {\n    let rules = vec!["@
}

/// The text for a token id.
pub open spec fn tok_id_text<T: StorageInt>(tok_id: Option<T>) -> Seq<char> {
    match tok_id {
        Some(t) => "Some("@ + decimal(t.value()) + ")"@,
        None => "None"@,
    }
}

/// The text for a rule's name, given the name as a quoted literal.
pub open spec fn name_text(quoted: Option<Seq<char>>) -> Seq<char> {
    match quoted {
        Some(q) => "Some("@ + q + ".to_string())"@,
        None => "None"@,
    }
}

/// The text that re-creates one rule, given its name as a quoted literal.
pub open spec fn rule_text<T: StorageInt>(
    tok_id: Option<T>,
    quoted: Option<Seq<char>>,
    pattern: Seq<char>,
) -> Seq<char> {
    "\nRule::new("@ + tok_id_text(tok_id) + ", "@ + name_text(quoted) + ", \""@ + escaped(pattern)
        + "\".to_string()).unwrap(),"@
}

/// A rule's name as a quoted literal.
pub open spec fn quoted_name(name: Option<Seq<char>>) -> Option<Seq<char>> {
    match name {
        Some(n) => Some(debug_quoted(n)),
        None => None,
    }
}

/// The text that re-creates the rules, in their order.
pub open spec fn rules_text<T: StorageInt>(rules: Seq<LexerRuleView<T>>) -> Seq<char>
    decreases rules.len(),
{
    if rules.len() == 0 {
        Seq::empty()
    } else {
        rules_text(rules.drop_last()) + rule_text(
            rules.last().tok_id,
            quoted_name(rules.last().name),
            rules.last().pattern,
        )
    }
}

/// The text that closes the list of rules and the function around it.
pub open spec fn footer_text(kind: LexerKind) -> Seq<char> {
    "\n];\n    "@ + lexerdef_name(kind) + "::from_rules(rules)\n}\n"@
}

/// The constant for one token: nothing unless its name can be an identifier.
pub open spec fn constant_text<T: StorageInt>(name: Seq<char>, id: T, is_identifier: bool) -> Seq<
    char,
> {
    if is_identifier {
        "#[allow(dead_code)]\npub const T_"@ + ascii_upper(name) + ": "@ + T::type_spelling()
            + " = "@ + decimal(id.value()) + ";\n"@
    } else {
        Seq::empty()
    }
}

/// The constants for the tokens, in the order of the map's entries.
pub open spec fn constants_text<T: StorageInt>(names: Seq<Seq<char>>, ids: Seq<T>) -> Seq<char>
    recommends
        names.len() == ids.len(),
    decreases names.len(),
{
    if names.len() == 0 || ids.len() == 0 {
        Seq::empty()
    } else {
        constants_text(names.drop_last(), ids.drop_last()) + constant_text(
            names.last(),
            ids.last(),
            regex_is_match(token_id_pattern(), names.last()),
        )
    }
}

/// The constants for the entries of `id_map`; nothing without a map.
pub open spec fn map_constants_text<T: StorageInt>(id_map: Option<&IdMap<T>>) -> Seq<char> {
    match id_map {
        Some(m) => constants_text(m.names(), m.ids()),
        None => Seq::empty(),
    }
}

/// The whole module.
pub open spec fn module_text<T: StorageInt>(
    mod_name: Seq<char>,
    kind: LexerKind,
    rules: Seq<LexerRuleView<T>>,
    id_map: Option<&IdMap<T>>,
) -> Seq<char> {
    header_text(mod_name, kind, T::type_spelling()) + rules_text(rules) + footer_text(kind)
        + map_constants_text(id_map) + "}"@
}

/// Why no module was generated.
#[derive(Debug)]
pub enum BuildError {
    /// The grammar uses these tokens and the lexer does not define them.
    MissingFromLexer(NameSet),
    /// The lexer defines these tokens and the grammar does not use them.
    MissingFromParser(NameSet),
    /// The regular expression for token names did not compile.
    TokenPattern,
}

fn lexerdef_name_of(kind: LexerKind) -> (r: &'static str)
    ensures
        r@ == lexerdef_name(kind),
{
    match kind {
        LexerKind::LRNonStreamingLexer => "LRNonStreamingLexerDef",
    }
}

/// Appends to `out` the text that re-creates one rule. `quoted` is the rule's
/// name as a quoted literal.
pub fn push_rule<T: StorageInt>(
    out: &mut String,
    tok_id: Option<T>,
    quoted: Option<&str>,
    pattern: &str,
)
    ensures
        final(out)@ == old(out)@ + rule_text(
            tok_id,
            match quoted {
                Some(q) => Some(q@),
                None => None,
            },
            pattern@,
        ),
{
    let ghost start = out@;
    out.append("\nRule::new(");
    match tok_id {
        Some(t) => {
            out.append("Some(");
            push_decimal(out, t.to_u64());
            out.append(")");
        },
        None => {
            out.append("None");
        },
    }
    out.append(", ");
    match quoted {
        Some(q) => {
            out.append("Some(");
            out.append(q);
            out.append(".to_string())");
        },
        None => {
            out.append("None");
        },
    }
    out.append(", \"");
    push_escaped(out, pattern);
    out.append("\".to_string()).unwrap(),");
    assert(out@ =~= start + rule_text(
        tok_id,
        match quoted {
            Some(q) => Some(q@),
            None => None,
        },
        pattern@,
    ));
}

/// Appends to `out` the constant for one token, if `is_identifier` says that
/// its name can be an identifier.
pub fn push_constant<T: StorageInt>(out: &mut String, name: &str, id: T, is_identifier: bool)
    ensures
        final(out)@ == old(out)@ + constant_text(name@, id, is_identifier),
{
    let ghost start = out@;
    if is_identifier {
        out.append("#[allow(dead_code)]\npub const T_");
        push_ascii_upper(out, name);
        out.append(": ");
        out.append(T::type_text());
        out.append(" = ");
        push_decimal(out, id.to_u64());
        out.append(";\n");
    }
    assert(out@ =~= start + constant_text(name@, id, is_identifier));
}

/// Whether a module can be generated with the constants of `id_map`: there
/// is no name to test, or the pattern for token names compiles.
pub open spec fn can_generate<T: StorageInt>(id_map: Option<&IdMap<T>>) -> bool {
    (id_map matches Some(m) ==> m.names().len() == 0) || regex_compiles(token_id_pattern())
}

/// The text of the module `mod_name` that builds a lexer of kind `kind` from
/// `rules`, with one constant for each token of `id_map` whose name can be an
/// identifier.
pub fn generate<T: StorageInt>(
    mod_name: &str,
    kind: LexerKind,
    rules: &Vec<LexerRule<T>>,
    id_map: Option<&IdMap<T>>,
) -> (r: Result<String, BuildError>)
    ensures
        r is Ok <==> can_generate(id_map),
        r matches Ok(text) ==> text@ == module_text(mod_name@, kind, rule_views(rules@), id_map),
        r matches Err(e) ==> e is TokenPattern,
{
    let ghost rv = rule_views(rules@);
    let mut out = String::new();
    out.append("mod ");
    out.append(mod_name);
    out.append(
        " {\nuse lrlex::{LexerDef, LRNonStreamingLexerDef, Rule};\n\n#[allow(dead_code)]\npub fn lexerdef() -> ",
    );
    out.append(lexerdef_name_of(kind));
    out.append("<");
    out.append(T::type_text());
    out.append(">");
    out.append(" {\n    let rules = vec![");
    assert(out@ =~= header_text(mod_name@, kind, T::type_spelling()));
    let ghost head = out@;
    let mut i: usize = 0;
    assert(rv.take(0) =~= Seq::<LexerRuleView<T>>::empty());
    while i < rules.len()
        invariant
            i <= rules.len(),
            rv == rule_views(rules@),
            out@ == head + rules_text(rv.take(i as int)),
        decreases rules.len() - i,
    {
        let rule = &rules[i];
        proof {
            assert(rv.take(i + 1).drop_last() =~= rv.take(i as int));
            assert(rv.take(i + 1).last() == rule@);
        }
        match &rule.name {
            Some(n) => {
                let q = debug_quote(n.as_str());
                push_rule(&mut out, rule.tok_id, Some(q.as_str()), rule.pattern.as_str());
            },
            None => {
                push_rule(&mut out, rule.tok_id, None, rule.pattern.as_str());
            },
        }
        assert(out@ =~= head + rules_text(rv.take(i + 1)));
        i += 1;
    }
    assert(rv.take(i as int) =~= rv);
    out.append("\n];\n    ");
    out.append(lexerdef_name_of(kind));
    out.append("::from_rules(rules)\n}\n");
    assert(out@ =~= head + rules_text(rv) + footer_text(kind));
    let ghost body = out@;
    match id_map {
        Some(m) => {
            let count = m.len();
            let mut k: usize = 0;
            assert(m.names().take(0) =~= Seq::<Seq<char>>::empty());
            while k < count
                invariant
                    k <= count,
                    id_map == Some(m),
                    count == m.names().len(),
                    count == m.ids().len(),
                    k > 0 ==> regex_compiles(token_id_pattern()),
                    out@ == body + constants_text(m.names().take(k as int), m.ids().take(k as int)),
                decreases count - k,
            {
                let name = m.name_at(k);
                let id = m.id_at(k);
                proof {
                    assert(m.names().take(k + 1).drop_last() =~= m.names().take(k as int));
                    assert(m.ids().take(k + 1).drop_last() =~= m.ids().take(k as int));
                }
                match pattern_is_match("^[a-zA-Z_][a-zA-Z_0-9]*$", name.as_str()) {
                    Ok(is_identifier) => {
                        push_constant(&mut out, name.as_str(), id, is_identifier);
                    },
                    Err(_) => {
                        return Err(BuildError::TokenPattern);
                    },
                }
                assert(out@ =~= body + constants_text(
                    m.names().take(k + 1),
                    m.ids().take(k + 1),
                ));
                k += 1;
            }
            assert(m.names().take(k as int) =~= m.names());
            assert(m.ids().take(k as int) =~= m.ids());
        },
        None => {},
    }
    out.append("}");
    assert(out@ =~= module_text(mod_name@, kind, rv, id_map));
    Ok(out)
}

/// Whether the text `candidate` has to be written where `existing` was
/// found: not when the same text is there already.
pub open spec fn write_needed(existing: Option<Seq<char>>, candidate: Seq<char>) -> bool {
    existing != Some(candidate)
}

/// Whether the text `candidate` has to be written where `existing` was found.
pub fn needs_write(existing: Option<&str>, candidate: &str) -> (r: bool)
    ensures
        r == write_needed(
            match existing {
                Some(e) => Some(e@),
                None => None,
            },
            candidate@,
        ),
{
    match existing {
        Some(e) => {
            let a = e.to_owned();
            let b = candidate.to_owned();
            !(a == b)
        },
        None => true,
    }
}

/// The criteria for generating a lexer module.
#[derive(Debug)]
pub struct LexerBuilder<'a, StorageT = u32> {
    lexerkind: LexerKind,
    mod_name: Option<&'a str>,
    rule_ids_map: Option<IdMap<StorageT>>,
    allow_missing_terms_in_lexer: bool,
    allow_missing_tokens_in_parser: bool,
}

/// What a builder made: the module's text and what reconciliation found.
#[derive(Debug)]
pub struct Built {
    /// The text of the generated module.
    pub text: String,
    /// The names with an id that no rule carries; `None` without a map.
    pub missing_from_lexer: Option<NameSet>,
    /// The names that rules carry and that have no id; `None` without a map.
    pub missing_from_parser: Option<NameSet>,
}

/// Whether a set of missing names stops the build: when it was computed, is
/// not empty, and is not allowed.
pub open spec fn is_fatal(allowed: bool, missing: Option<Set<Seq<char>>>) -> bool {
    !allowed && (missing matches Some(s) && s != Set::<Seq<char>>::empty())
}

/// The members of an optional set of names.
pub open spec fn members(names: Option<NameSet>) -> Option<Set<Seq<char>>> {
    match names {
        Some(s) => Some(s@),
        None => None,
    }
}

impl<'a, StorageT: StorageInt> LexerBuilder<'a, StorageT> {
    /// The kind of lexer to generate.
    pub closed spec fn kind(&self) -> LexerKind {
        self.lexerkind
    }

    /// The module name that was chosen, if one was.
    pub closed spec fn chosen_mod_name(&self) -> Option<Seq<char>> {
        match self.mod_name {
            Some(s) => Some(s@),
            None => None,
        }
    }

    /// The map of token ids that was given, if one was.
    pub closed spec fn rule_ids(&self) -> Option<&IdMap<StorageT>> {
        match &self.rule_ids_map {
            Some(m) => Some(m),
            None => None,
        }
    }

    /// Whether tokens that the lexer lacks are tolerated.
    pub closed spec fn missing_terms_allowed(&self) -> bool {
        self.allow_missing_terms_in_lexer
    }

    /// Whether tokens that the grammar lacks are tolerated.
    pub closed spec fn missing_tokens_allowed(&self) -> bool {
        self.allow_missing_tokens_in_parser
    }

    /// The name of the module to generate for a source called `stem`: the
    /// chosen name, or else `stem` followed by `_l`.
    pub open spec fn module_name(&self, stem: Seq<char>) -> Seq<char> {
        match self.chosen_mod_name() {
            Some(n) => n,
            None => stem + "_l"@,
        }
    }

    /// The rules as the builder hands them to the generator: with the ids
    /// of the map, if there is one.
    pub open spec fn assigned(&self, rules: Seq<LexerRuleView<StorageT>>) -> Seq<
        LexerRuleView<StorageT>,
    > {
        match self.rule_ids() {
            Some(m) => assign_ids(rules, m.map()),
            None => rules,
        }
    }

    /// The tokens that the grammar uses and `rules` do not define; `None`
    /// without a map.
    pub open spec fn lexer_lacks(&self, rules: Seq<LexerRuleView<StorageT>>) -> Option<
        Set<Seq<char>>,
    > {
        match self.rule_ids() {
            Some(m) => Some(missing_from_lexer(rules, m.map())),
            None => None,
        }
    }

    /// The tokens that `rules` define and the grammar does not use; `None`
    /// without a map.
    pub open spec fn parser_lacks(&self, rules: Seq<LexerRuleView<StorageT>>) -> Option<
        Set<Seq<char>>,
    > {
        match self.rule_ids() {
            Some(m) => Some(missing_from_parser(rules, m.map())),
            None => None,
        }
    }

    /// Whether a module name was chosen.
    pub fn has_mod_name(&self) -> (r: bool)
        ensures
            r == self.chosen_mod_name() is Some,
    {
        self.mod_name.is_some()
    }

    /// A builder for the default kind of lexer, with no module name and no
    /// map of token ids, that stops on tokens that the lexer lacks and
    /// tolerates tokens that the grammar lacks.
    pub fn new() -> (r: Self)
        ensures
            r.kind() == LexerKind::LRNonStreamingLexer,
            r.chosen_mod_name() is None,
            r.rule_ids() is None,
            !r.missing_terms_allowed(),
            r.missing_tokens_allowed(),
    {
        LexerBuilder {
            lexerkind: LexerKind::LRNonStreamingLexer,
            mod_name: None,
            rule_ids_map: None,
            allow_missing_terms_in_lexer: false,
            allow_missing_tokens_in_parser: true,
        }
    }

    /// Sets the kind of lexer to generate.
    pub fn lexerkind(self, lexerkind: LexerKind) -> (r: Self)
        ensures
            r.kind() == lexerkind,
            r.chosen_mod_name() == self.chosen_mod_name(),
            r.rule_ids() == self.rule_ids(),
            r.missing_terms_allowed() == self.missing_terms_allowed(),
            r.missing_tokens_allowed() == self.missing_tokens_allowed(),
    {
        let mut b = self;
        b.lexerkind = lexerkind;
        b
    }

    /// Sets the name of the generated module.
    pub fn mod_name(self, mod_name: &'a str) -> (r: Self)
        ensures
            r.chosen_mod_name() == Some(mod_name@),
            r.kind() == self.kind(),
            r.rule_ids() == self.rule_ids(),
            r.missing_terms_allowed() == self.missing_terms_allowed(),
            r.missing_tokens_allowed() == self.missing_tokens_allowed(),
    {
        let mut b = self;
        b.mod_name = Some(mod_name);
        b
    }

    /// Sets the map from token names to ids with which the rules are
    /// reconciled.
    pub fn rule_ids_map(self, rule_ids_map: IdMap<StorageT>) -> (r: Self)
        ensures
            r.rule_ids() == Some(&rule_ids_map),
            r.kind() == self.kind(),
            r.chosen_mod_name() == self.chosen_mod_name(),
            r.missing_terms_allowed() == self.missing_terms_allowed(),
            r.missing_tokens_allowed() == self.missing_tokens_allowed(),
    {
        let mut b = self;
        b.rule_ids_map = Some(rule_ids_map);
        b
    }

    /// Says whether tokens that the grammar uses and the lexer does not
    /// define are tolerated.
    pub fn allow_missing_terms_in_lexer(self, allow: bool) -> (r: Self)
        ensures
            r.missing_terms_allowed() == allow,
            r.kind() == self.kind(),
            r.chosen_mod_name() == self.chosen_mod_name(),
            r.rule_ids() == self.rule_ids(),
            r.missing_tokens_allowed() == self.missing_tokens_allowed(),
    {
        let mut b = self;
        b.allow_missing_terms_in_lexer = allow;
        b
    }

    /// Says whether tokens that the lexer defines and the grammar does not
    /// use are tolerated.
    pub fn allow_missing_tokens_in_parser(self, allow: bool) -> (r: Self)
        ensures
            r.missing_tokens_allowed() == allow,
            r.kind() == self.kind(),
            r.chosen_mod_name() == self.chosen_mod_name(),
            r.rule_ids() == self.rule_ids(),
            r.missing_terms_allowed() == self.missing_terms_allowed(),
    {
        let mut b = self;
        b.allow_missing_tokens_in_parser = allow;
        b
    }

    /// Judges what reconciliation found: an error names the first set of
    /// missing tokens that is not tolerated, the lexer's side first.
    pub fn check_missing(
        &self,
        missing_from_lexer: Option<NameSet>,
        missing_from_parser: Option<NameSet>,
    ) -> (r: Result<(Option<NameSet>, Option<NameSet>), BuildError>)
        ensures
            r == if is_fatal(self.missing_terms_allowed(), members(missing_from_lexer)) {
                Err::<(Option<NameSet>, Option<NameSet>), BuildError>(
                    BuildError::MissingFromLexer(missing_from_lexer->Some_0),
                )
            } else if is_fatal(self.missing_tokens_allowed(), members(missing_from_parser)) {
                Err(BuildError::MissingFromParser(missing_from_parser->Some_0))
            } else {
                Ok((missing_from_lexer, missing_from_parser))
            },
    {
        if !self.allow_missing_terms_in_lexer {
            match &missing_from_lexer {
                Some(s) => {
                    if !s.is_empty() {
                        return Err(BuildError::MissingFromLexer(missing_from_lexer.unwrap()));
                    }
                },
                None => {},
            }
        }
        if !self.allow_missing_tokens_in_parser {
            match &missing_from_parser {
                Some(s) => {
                    if !s.is_empty() {
                        return Err(BuildError::MissingFromParser(missing_from_parser.unwrap()));
                    }
                },
                None => {},
            }
        }
        Ok((missing_from_lexer, missing_from_parser))
    }

    /// Reconciles `rules` with the map of token ids, judges what is missing,
    /// and generates the module for a source called `stem`.
    pub fn build(&self, rules: &Vec<LexerRule<StorageT>>, stem: &str) -> (r: Result<
        Built,
        BuildError,
    >)
        ensures
            match r {
                Err(BuildError::MissingFromLexer(s)) => {
                    &&& is_fatal(self.missing_terms_allowed(), self.lexer_lacks(rule_views(rules@)))
                    &&& Some(s@) == self.lexer_lacks(rule_views(rules@))
                },
                Err(BuildError::MissingFromParser(s)) => {
                    &&& !is_fatal(
                        self.missing_terms_allowed(),
                        self.lexer_lacks(rule_views(rules@)),
                    )
                    &&& is_fatal(
                        self.missing_tokens_allowed(),
                        self.parser_lacks(rule_views(rules@)),
                    )
                    &&& Some(s@) == self.parser_lacks(rule_views(rules@))
                },
                Err(BuildError::TokenPattern) => {
                    &&& !is_fatal(
                        self.missing_terms_allowed(),
                        self.lexer_lacks(rule_views(rules@)),
                    )
                    &&& !is_fatal(
                        self.missing_tokens_allowed(),
                        self.parser_lacks(rule_views(rules@)),
                    )
                    &&& !can_generate(self.rule_ids())
                },
                Ok(b) => {
                    &&& !is_fatal(
                        self.missing_terms_allowed(),
                        self.lexer_lacks(rule_views(rules@)),
                    )
                    &&& !is_fatal(
                        self.missing_tokens_allowed(),
                        self.parser_lacks(rule_views(rules@)),
                    )
                    &&& can_generate(self.rule_ids())
                    &&& b.text@ == module_text(
                        self.module_name(stem@),
                        self.kind(),
                        self.assigned(rule_views(rules@)),
                        self.rule_ids(),
                    )
                    &&& members(b.missing_from_lexer) == self.lexer_lacks(rule_views(rules@))
                    &&& members(b.missing_from_parser) == self.parser_lacks(rule_views(rules@))
                },
            },
    {
        let id_map = match &self.rule_ids_map {
            Some(m) => Some(m),
            None => None,
        };
        let found = reconcile(rules, id_map);
        let (mfl, mfp) = match self.check_missing(
            found.missing_from_lexer,
            found.missing_from_parser,
        ) {
            Ok(pair) => pair,
            Err(e) => {
                return Err(e);
            },
        };
        let text = match self.mod_name {
            Some(n) => generate(n, self.lexerkind, &found.rules, id_map),
            None => {
                let mut name = stem.to_owned();
                name.append("_l");
                generate(name.as_str(), self.lexerkind, &found.rules, id_map)
            },
        };
        match text {
            Ok(text) => Ok(Built { text, missing_from_lexer: mfl, missing_from_parser: mfp }),
            Err(e) => Err(e),
        }
    }
}

/// The generated text depends on nothing but the module's name, the kind of
/// lexer, the storage type, what the rules hold in their order, and the
/// entries of the map, in whatever order they were put into it.
pub proof fn lemma_generate_repeatable<T: StorageInt>(
    mod_name: Seq<char>,
    kind: LexerKind,
    rules1: Seq<LexerRule<T>>,
    rules2: Seq<LexerRule<T>>,
    map1: Option<&IdMap<T>>,
    map2: Option<&IdMap<T>>,
)
    requires
        rule_views(rules1) == rule_views(rules2),
        map1 is Some == map2 is Some,
        map1 matches Some(m1) ==> map2 matches Some(m2) && m1.ordered() && m2.ordered()
            && m1.map() == m2.map(),
    ensures
        module_text(mod_name, kind, rule_views(rules1), map1) == module_text(
            mod_name,
            kind,
            rule_views(rules2),
            map2,
        ),
{
    match (map1, map2) {
        (Some(m1), Some(m2)) => {
            lemma_same_map_same_order(m1, m2);
        },
        _ => {},
    }
}

/// A text that is already in place is not written again.
pub proof fn lemma_same_text_is_not_rewritten(text: Seq<char>)
    ensures
        !write_needed(Some(text), text),
{
}

} // verus!
