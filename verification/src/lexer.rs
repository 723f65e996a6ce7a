//! Lexer rules and their reconciliation with a grammar's token ids.

use vstd::prelude::*;
use crate::idmap::IdMap;
use crate::names::NameSet;

verus! {

/// One lexical rule: a pattern, the name under which a grammar may refer to
/// it, and the token id that the two sides share.
#[derive(Debug)]
pub struct LexerRule<T> {
    /// The token id; absent for rules that mean nothing to a grammar.
    pub tok_id: Option<T>,
    /// The name by which an id is looked up.
    pub name: Option<String>,
    /// The pattern as the rule's author wrote it.
    pub pattern: String,
}

/// What a lexer rule holds.
pub struct LexerRuleView<T> {
    pub tok_id: Option<T>,
    pub name: Option<Seq<char>>,
    pub pattern: Seq<char>,
}

impl<T> View for LexerRule<T> {
    type V = LexerRuleView<T>;

    open spec fn view(&self) -> LexerRuleView<T> {
        LexerRuleView {
            tok_id: self.tok_id,
            name: match self.name {
                Some(n) => Some(n@),
                None => None,
            },
            pattern: self.pattern@,
        }
    }
}

impl<T: Copy> LexerRule<T> {
    /// A rule with the given parts.
    pub fn new(tok_id: Option<T>, name: Option<String>, pattern: String) -> (r: LexerRule<T>)
        ensures
            r.tok_id == tok_id,
            r.name == name,
            r.pattern == pattern,
    {
        LexerRule { tok_id, name, pattern }
    }

    /// A copy of the rule that carries `tok_id`.
    pub fn with_id(&self, tok_id: Option<T>) -> (r: LexerRule<T>)
        ensures
            r@ == (LexerRuleView { tok_id, ..self@ }),
    {
        let name = match &self.name {
            Some(n) => Some(n.clone()),
            None => None,
        };
        LexerRule { tok_id, name, pattern: self.pattern.clone() }
    }
}

/// What each of a sequence of rules holds.
pub open spec fn rule_views<T>(rules: Seq<LexerRule<T>>) -> Seq<LexerRuleView<T>> {
    rules.map_values(|r: LexerRule<T>| r@)
}

/// Appending a rule appends what it holds.
pub proof fn lemma_rule_views_push<T>(rules: Seq<LexerRule<T>>, r: LexerRule<T>)
    ensures
        rule_views(rules.push(r)) == rule_views(rules).push(r@),
{
    assert(rule_views(rules.push(r)) =~= rule_views(rules).push(r@));
}

/// Whether some rule carries the name `n`.
pub open spec fn is_rule_name<T>(rules: Seq<LexerRuleView<T>>, n: Seq<char>) -> bool {
    exists|i: int| 0 <= i < rules.len() && (#[trigger] rules[i]).name == Some(n)
}

/// The rule `r` after ids were assigned from `ids`: a named rule whose name
/// has an id carries that id, any other rule is as it was.
pub open spec fn assign_id<T>(r: LexerRuleView<T>, ids: Map<Seq<char>, T>) -> LexerRuleView<T> {
    match r.name {
        Some(n) => if ids.dom().contains(n) {
            LexerRuleView { tok_id: Some(ids[n]), ..r }
        } else {
            r
        },
        None => r,
    }
}

/// The rules after ids were assigned from `ids`, in their order.
pub open spec fn assign_ids<T>(rules: Seq<LexerRuleView<T>>, ids: Map<Seq<char>, T>) -> Seq<
    LexerRuleView<T>,
> {
    rules.map_values(|r: LexerRuleView<T>| assign_id(r, ids))
}

/// The names that have an id but that no rule carries.
pub open spec fn missing_from_lexer<T>(rules: Seq<LexerRuleView<T>>, ids: Map<Seq<char>, T>) -> Set<
    Seq<char>,
> {
    Set::new(|n: Seq<char>| ids.dom().contains(n) && !is_rule_name(rules, n))
}

/// The names that a rule carries but that have no id.
pub open spec fn missing_from_parser<T>(
    rules: Seq<LexerRuleView<T>>,
    ids: Map<Seq<char>, T>,
) -> Set<Seq<char>> {
    Set::new(|n: Seq<char>| is_rule_name(rules, n) && !ids.dom().contains(n))
}

/// What a reconciliation found.
#[derive(Debug)]
pub struct Reconciled<T> {
    /// The rules, with the ids that the map gave them.
    pub rules: Vec<LexerRule<T>>,
    /// The names with an id that no rule carries; `None` when no map was given.
    pub missing_from_lexer: Option<NameSet>,
    /// The names that rules carry and that have no id; `None` when no map was given.
    pub missing_from_parser: Option<NameSet>,
}

/// Assigns the ids of `id_map` to the rules that carry a name of it, and
/// reports the names that only one side knows. Without a map the rules come
/// back as they are and nothing is reported.
pub fn reconcile<T: Copy>(rules: &Vec<LexerRule<T>>, id_map: Option<&IdMap<T>>) -> (r: Reconciled<
    T,
>)
    ensures
        id_map is None ==> {
            &&& rule_views(r.rules@) == rule_views(rules@)
            &&& r.missing_from_lexer is None
            &&& r.missing_from_parser is None
        },
        id_map matches Some(m) ==> {
            &&& rule_views(r.rules@) == assign_ids(rule_views(rules@), m.map())
            &&& r.missing_from_lexer matches Some(mfl) && mfl@ == missing_from_lexer(
                rule_views(rules@),
                m.map(),
            )
            &&& r.missing_from_parser matches Some(mfp) && mfp@ == missing_from_parser(
                rule_views(rules@),
                m.map(),
            )
        },
{
    let ghost rv = rule_views(rules@);
    let mut out: Vec<LexerRule<T>> = Vec::new();
    match id_map {
        None => {
            let mut i: usize = 0;
            while i < rules.len()
                invariant
                    i <= rules.len(),
                    rule_views(out@) == rule_views(rules@).take(i as int),
                decreases rules.len() - i,
            {
                let copy = rules[i].with_id(rules[i].tok_id);
                proof {
                    lemma_rule_views_push(out@, copy);
                    assert(rule_views(rules@).take(i + 1) =~= rule_views(rules@).take(
                        i as int,
                    ).push(rules[i as int]@));
                }
                out.push(copy);
                i += 1;
            }
            assert(rule_views(rules@).take(i as int) =~= rule_views(rules@));
            Reconciled { rules: out, missing_from_lexer: None, missing_from_parser: None }
        },
        Some(m) => {
            let mut named = NameSet::new();
            let mut mfp = NameSet::new();
            let mut i: usize = 0;
            while i < rules.len()
                invariant
                    i <= rules.len(),
                    rv == rule_views(rules@),
                    rule_views(out@) == assign_ids(rv, m.map()).take(i as int),
                    named@ == Set::new(|n: Seq<char>| is_rule_name(rv.take(i as int), n)),
                    mfp@ == missing_from_parser(rv.take(i as int), m.map()),
                decreases rules.len() - i,
            {
                let ghost named0 = named@;
                let ghost mfp0 = mfp@;
                let rule = &rules[i];
                assert(rv[i as int] == rule@);
                assert(rv.take(i + 1) =~= rv.take(i as int).push(rule@));
                let copy = match &rule.name {
                    Some(n) => {
                        named.insert(n.clone());
                        match m.get(n.as_str()) {
                            Some(id) => rule.with_id(Some(id)),
                            None => {
                                mfp.insert(n.clone());
                                rule.with_id(rule.tok_id)
                            },
                        }
                    },
                    None => rule.with_id(rule.tok_id),
                };
                assert(copy@ == assign_id(rule@, m.map()));
                proof {
                    lemma_rule_views_push(out@, copy);
                    assert(assign_ids(rv, m.map()).take(i + 1) =~= assign_ids(rv, m.map()).take(
                        i as int,
                    ).push(assign_id(rule@, m.map())));
                }
                out.push(copy);
                proof {
                    lemma_is_rule_name_push(rv.take(i as int), rule@);
                    assert(named@ =~= Set::new(|n: Seq<char>| is_rule_name(rv.take(i + 1), n)));
                    assert(mfp@ =~= missing_from_parser(rv.take(i + 1), m.map()));
                }
                i += 1;
            }
            assert(rv.take(i as int) =~= rv);
            assert(assign_ids(rv, m.map()).take(i as int) =~= assign_ids(rv, m.map()));
            let mut mfl = NameSet::new();
            let mut k: usize = 0;
            let count = m.len();
            while k < count
                invariant
                    k <= count,
                    count == m.names().len(),
                    named@ == Set::new(|n: Seq<char>| is_rule_name(rv, n)),
                    mfl@ == Set::new(
                        |n: Seq<char>|
                            m.names().take(k as int).contains(n) && !is_rule_name(rv, n),
                    ),
                decreases count - k,
            {
                let key = m.name_at(k);
                assert(m.names().take(k + 1) =~= m.names().take(k as int).push(key@));
                if !named.contains(key.as_str()) {
                    mfl.insert(key.clone());
                }
                proof {
                    let ks = m.names().take(k as int);
                    assert forall|n: Seq<char>| #[trigger]
                        ks.push(key@).contains(n) == (ks.contains(n) || n == key@) by {
                        if ks.contains(n) {
                            let j = ks.index_of(n);
                            assert(ks.push(key@)[j] == n);
                        }
                        if n == key@ {
                            assert(ks.push(key@)[ks.len() as int] == n);
                        }
                    }
                    assert(mfl@ =~= Set::new(
                        |n: Seq<char>|
                            m.names().take(k + 1).contains(n) && !is_rule_name(rv, n),
                    ));
                }
                k += 1;
            }
            assert(m.names().take(k as int) =~= m.names());
            assert(mfl@ =~= missing_from_lexer(rv, m.map()));
            Reconciled { rules: out, missing_from_lexer: Some(mfl), missing_from_parser: Some(mfp) }
        },
    }
}

/// A name is carried by one of the rules followed by `r` exactly when it is
/// carried by one of the rules or by `r`.
pub proof fn lemma_is_rule_name_push<T>(rules: Seq<LexerRuleView<T>>, r: LexerRuleView<T>)
    ensures
        forall|n: Seq<char>| #[trigger]
            is_rule_name(rules.push(r), n) == (is_rule_name(rules, n) || r.name == Some(n)),
{
    assert forall|n: Seq<char>| #[trigger]
        is_rule_name(rules.push(r), n) == (is_rule_name(rules, n) || r.name == Some(n)) by {
        if is_rule_name(rules, n) {
            let i = choose|i: int| 0 <= i < rules.len() && (#[trigger] rules[i]).name == Some(n);
            assert(rules.push(r)[i].name == Some(n));
        }
        if r.name == Some(n) {
            assert(rules.push(r)[rules.len() as int].name == Some(n));
        }
        if is_rule_name(rules.push(r), n) {
            let i = choose|i: int|
                0 <= i < rules.push(r).len() && (#[trigger] rules.push(r)[i]).name == Some(n);
            if i < rules.len() {
                assert(rules[i].name == Some(n));
            }
        }
    }
}

/// When the names that have an id are exactly the names that rules carry,
/// every named rule gets its id and nothing is missing on either side.
pub proof fn lemma_exact_cover_misses_nothing<T>(
    rules: Seq<LexerRuleView<T>>,
    ids: Map<Seq<char>, T>,
)
    requires
        forall|n: Seq<char>| ids.dom().contains(n) <==> is_rule_name(rules, n),
    ensures
        missing_from_lexer(rules, ids) == Set::<Seq<char>>::empty(),
        missing_from_parser(rules, ids) == Set::<Seq<char>>::empty(),
        forall|i: int|
            0 <= i < rules.len() ==> ((#[trigger] rules[i]).name matches Some(n) ==> assign_ids(
                rules,
                ids,
            )[i].tok_id == Some(ids[n])),
{
    assert(missing_from_lexer(rules, ids) =~= Set::<Seq<char>>::empty());
    assert(missing_from_parser(rules, ids) =~= Set::<Seq<char>>::empty());
    assert forall|i: int| 0 <= i < rules.len() implies ((#[trigger] rules[i]).name matches Some(
        n,
    ) ==> assign_ids(rules, ids)[i].tok_id == Some(ids[n])) by {
        if rules[i].name is Some {
            assert(is_rule_name(rules, rules[i].name->Some_0));
        }
    }
}

} // verus!
