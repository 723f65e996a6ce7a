//! The reader for Yacc grammar text.
//!
//! A grammar text is a declarations section, the separator `%%`, and a rules
//! section. The spec functions of this file say, position by position, what
//! a text means; `parse_yacc` computes exactly that.

use vstd::prelude::*;
use crate::grammar_ast::{
    GrammarAST, GrammarView, Symbol, SymbolView, lemma_symbol_views_push,
    lemma_terminals_in_push, lemma_with_alternative_uses, symbol_views, terminals_in,
    used_terminals,
};
use crate::text::{chars_of, decimal, push_decimal, string_of};
use vstd::string::StringExecFns;

verus! {

/// The ways in which a grammar text can be wrong.
#[derive(Clone, Copy, Debug, PartialEq, Eq, Structural)]
pub enum YaccErrorKind {
    /// A name was expected and the text there does not begin one.
    IllegalName,
    /// A rule's body was opened and not closed with `;`.
    IncompleteRule,
    /// A rule's name is not followed by `:`.
    MissingColon,
    /// The text ended in the declarations section.
    PrematureEnd,
    /// A second `%%` stands in the text.
    ProgramsNotSupported,
    /// A declaration is none of those that are known.
    UnknownDeclaration,
}

/// An error in a grammar text and the place where it was found, counted in
/// characters from the start of the text.
#[derive(Clone, Copy, Debug, PartialEq, Eq, Structural)]
pub struct YaccError {
    pub kind: YaccErrorKind,
    pub off: usize,
}

/// What an error holds.
pub struct YaccErrorView {
    pub kind: YaccErrorKind,
    pub off: int,
}

impl View for YaccError {
    type V = YaccErrorView;

    open spec fn view(&self) -> YaccErrorView {
        YaccErrorView { kind: self.kind, off: self.off as int }
    }
}

/// What went wrong, in words.
pub open spec fn description(kind: YaccErrorKind) -> Seq<char> {
    match kind {
        YaccErrorKind::IllegalName => "Illegal name"@,
        YaccErrorKind::IncompleteRule => "Incomplete rule"@,
        YaccErrorKind::MissingColon => "Missing colon"@,
        YaccErrorKind::PrematureEnd => "File ends prematurely"@,
        YaccErrorKind::ProgramsNotSupported => "Programs not currently supported"@,
        YaccErrorKind::UnknownDeclaration => "Unknown declaration"@,
    }
}

impl YaccErrorView {
    /// The error in words: what went wrong and where.
    pub open spec fn message(self) -> Seq<char> {
        description(self.kind) + " at position "@ + decimal(self.off as nat)
    }
}

impl YaccErrorKind {
    /// What went wrong, in words.
    pub fn describe(&self) -> (r: &'static str)
        ensures
            r@ == description(*self),
    {
        match self {
            YaccErrorKind::IllegalName => "Illegal name",
            YaccErrorKind::IncompleteRule => "Incomplete rule",
            YaccErrorKind::MissingColon => "Missing colon",
            YaccErrorKind::PrematureEnd => "File ends prematurely",
            YaccErrorKind::ProgramsNotSupported => "Programs not currently supported",
            YaccErrorKind::UnknownDeclaration => "Unknown declaration",
        }
    }
}

/// The number of line ends among the first `off` characters of `s`.
pub open spec fn line_of(s: Seq<char>, off: int) -> nat
    decreases off,
{
    if off <= 0 || off > s.len() {
        0
    } else if s[off - 1] == '\n' {
        line_of(s, off - 1) + 1
    } else {
        line_of(s, off - 1)
    }
}

/// The number of characters between the last line end among the first `off`
/// characters of `s`, or else the start of `s`, and position `off`.
pub open spec fn column_of(s: Seq<char>, off: int) -> nat
    decreases off,
{
    if off <= 0 || off > s.len() || s[off - 1] == '\n' {
        0
    } else {
        column_of(s, off - 1) + 1
    }
}

impl YaccError {
    /// The line and the column of the error in `text`, both counted from
    /// zero. A place behind the end of `text` counts as its end.
    pub fn line_col(&self, text: &str) -> (r: (usize, usize))
        ensures
            ({
                let place = if self.off <= text@.len() {
                    self.off as int
                } else {
                    text@.len() as int
                };
                r.0 == line_of(text@, place) && r.1 == column_of(text@, place)
            }),
    {
        let src = chars_of(text);
        let end = if self.off <= src.len() {
            self.off
        } else {
            src.len()
        };
        let mut line: usize = 0;
        let mut col: usize = 0;
        let mut i: usize = 0;
        while i < end
            invariant
                i <= end <= src.len(),
                line == line_of(src@, i as int),
                col == column_of(src@, i as int),
                line <= i,
                col <= i,
            decreases end - i,
        {
            if src[i] == '\n' {
                line += 1;
                col = 0;
            } else {
                col += 1;
            }
            i += 1;
        }
        (line, col)
    }

    /// The error in words: what went wrong and where.
    pub fn message(&self) -> (r: String)
        ensures
            r@ == self@.message(),
    {
        let mut out = self.kind.describe().to_owned();
        out.append(" at position ");
        push_decimal(&mut out, self.off as u64);
        out
    }
}

/// The error of kind `kind` at `off`.
pub open spec fn failure<A>(kind: YaccErrorKind, off: int) -> Result<A, YaccErrorView> {
    Err(YaccErrorView { kind, off })
}

/// Whether `c` is white space.
pub open spec fn is_ws(c: char) -> bool {
    c == ' ' || c == '\t' || c == '\n' || c == '\r'
}

/// Whether `c` is white space that does not end a line.
pub open spec fn is_blank(c: char) -> bool {
    c == ' ' || c == '\t'
}

/// Whether a name can begin with `c`: a letter or an underscore.
pub open spec fn is_name_start(c: char) -> bool {
    ('a' <= c && c <= 'z') || ('A' <= c && c <= 'Z') || c == '_'
}

/// Whether a name can go on with `c`: a letter, a digit or an underscore.
pub open spec fn is_name_char(c: char) -> bool {
    is_name_start(c) || ('0' <= c && c <= '9')
}

/// Whether `c` opens a quoted terminal.
pub open spec fn is_quote(c: char) -> bool {
    c == '\'' || c == '"'
}

/// The first position at or after `i` that holds no white space.
pub open spec fn skip_ws(s: Seq<char>, i: int) -> int
    decreases s.len() - i,
{
    if 0 <= i < s.len() && is_ws(s[i]) {
        skip_ws(s, i + 1)
    } else {
        i
    }
}

/// The first position at or after `i` that holds neither a space nor a tab.
pub open spec fn skip_blanks(s: Seq<char>, i: int) -> int
    decreases s.len() - i,
{
    if 0 <= i < s.len() && is_blank(s[i]) {
        skip_blanks(s, i + 1)
    } else {
        i
    }
}

/// The first position at or after `i` that holds no character of a name.
pub open spec fn name_end(s: Seq<char>, i: int) -> int
    decreases s.len() - i,
{
    if 0 <= i < s.len() && is_name_char(s[i]) {
        name_end(s, i + 1)
    } else {
        i
    }
}

/// The first position at or after `i` that holds the quote `q`, or the end
/// of the text.
pub open spec fn quote_end(s: Seq<char>, i: int, q: char) -> int
    decreases s.len() - i,
{
    if 0 <= i < s.len() && s[i] != q {
        quote_end(s, i + 1, q)
    } else {
        i
    }
}

/// `skip_ws` moves forward and stays within the text.
pub proof fn lemma_skip_ws_bounds(s: Seq<char>, i: int)
    requires
        0 <= i <= s.len(),
    ensures
        i <= skip_ws(s, i) <= s.len(),
    decreases s.len() - i,
{
    if i < s.len() && is_ws(s[i]) {
        lemma_skip_ws_bounds(s, i + 1);
    }
}

/// `skip_blanks` moves forward and stays within the text.
pub proof fn lemma_skip_blanks_bounds(s: Seq<char>, i: int)
    requires
        0 <= i <= s.len(),
    ensures
        i <= skip_blanks(s, i) <= s.len(),
    decreases s.len() - i,
{
    if i < s.len() && is_blank(s[i]) {
        lemma_skip_blanks_bounds(s, i + 1);
    }
}

/// `name_end` moves forward, past a character of a name if there is one, and
/// stays within the text.
pub proof fn lemma_name_end_bounds(s: Seq<char>, i: int)
    requires
        0 <= i <= s.len(),
    ensures
        i <= name_end(s, i) <= s.len(),
        i < s.len() && is_name_char(s[i]) ==> i < name_end(s, i),
    decreases s.len() - i,
{
    if i < s.len() && is_name_char(s[i]) {
        lemma_name_end_bounds(s, i + 1);
    }
}

/// `quote_end` moves forward and stays within the text.
pub proof fn lemma_quote_end_bounds(s: Seq<char>, i: int, q: char)
    requires
        0 <= i <= s.len(),
    ensures
        i <= quote_end(s, i, q) <= s.len(),
    decreases s.len() - i,
{
    if i < s.len() && s[i] != q {
        lemma_quote_end_bounds(s, i + 1, q);
    }
}

/// The keyword of the declaration of tokens.
pub open spec fn token_keyword() -> Seq<char> {
    seq!['t', 'o', 'k', 'e', 'n']
}

/// The keyword of the declaration of the start symbol.
pub open spec fn start_keyword() -> Seq<char> {
    seq!['s', 't', 'a', 'r', 't']
}

/// Whether the separator `%%` stands at `i`.
pub open spec fn separator_at(s: Seq<char>, i: int) -> bool {
    0 <= i && i + 1 < s.len() && s[i] == '%' && s[i + 1] == '%'
}

/// Reads the names that stand on one line from `i` on, with spaces or tabs
/// between them, and makes each a token. Gives the position behind the last
/// name and the spaces and tabs after it.
pub open spec fn token_list(s: Seq<char>, i: int, g: GrammarView) -> (int, GrammarView)
    decreases s.len() - i,
{
    if 0 <= i < s.len() && is_name_start(s[i]) {
        let k = name_end(s, i);
        proof {
            lemma_name_end_bounds(s, i);
            lemma_skip_blanks_bounds(s, k);
        }
        token_list(s, skip_blanks(s, k), g.with_token(s.subrange(i, k)))
    } else {
        (i, g)
    }
}

/// `token_list` moves forward and stays within the text.
pub proof fn lemma_token_list_bounds(s: Seq<char>, i: int, g: GrammarView)
    requires
        0 <= i <= s.len(),
    ensures
        i <= token_list(s, i, g).0 <= s.len(),
        i < s.len() && is_name_start(s[i]) ==> i < token_list(s, i, g).0,
    decreases s.len() - i,
{
    if i < s.len() && is_name_start(s[i]) {
        let k = name_end(s, i);
        lemma_name_end_bounds(s, i);
        lemma_skip_blanks_bounds(s, k);
        lemma_token_list_bounds(s, skip_blanks(s, k), g.with_token(s.subrange(i, k)));
    }
}

/// Reads the declarations from `i`, which follows white space, up to the
/// first `%%`. Gives the position behind that separator and the grammar with
/// what was declared.
///
/// A declaration stands on one line: `%token` and one or more names, or
/// `%start` and one name, parted by spaces or tabs. A later `%start` replaces
/// an earlier one. The text must not end before `%%`.
pub open spec fn declarations(s: Seq<char>, i: int, g: GrammarView) -> Result<
    (int, GrammarView),
    YaccErrorView,
>
    decreases s.len() - i,
{
    if !(0 <= i < s.len()) {
        failure(YaccErrorKind::PrematureEnd, i)
    } else if separator_at(s, i) {
        Ok((i + 2, g))
    } else if s[i] != '%' {
        failure(YaccErrorKind::UnknownDeclaration, i)
    } else {
        let e = name_end(s, i + 1);
        let keyword = s.subrange(i + 1, e);
        let j = skip_blanks(s, e);
        if keyword != token_keyword() && keyword != start_keyword() {
            failure(YaccErrorKind::UnknownDeclaration, i)
        } else if j >= s.len() {
            failure(YaccErrorKind::PrematureEnd, j)
        } else if !is_name_start(s[j]) {
            failure(YaccErrorKind::IllegalName, j)
        } else if keyword == token_keyword() {
            let (k, g2) = token_list(s, j, g);
            proof {
                lemma_name_end_bounds(s, i + 1);
                lemma_skip_blanks_bounds(s, e);
                lemma_token_list_bounds(s, j, g);
                lemma_skip_ws_bounds(s, k);
            }
            declarations(s, skip_ws(s, k), g2)
        } else {
            let k = name_end(s, j);
            proof {
                lemma_name_end_bounds(s, i + 1);
                lemma_skip_blanks_bounds(s, e);
                lemma_name_end_bounds(s, j);
                lemma_skip_ws_bounds(s, k);
            }
            declarations(s, skip_ws(s, k), g.with_start(s.subrange(j, k)))
        }
    }
}

/// The symbol that the name `n` stands for in a rule's body: a terminal if
/// `n` is a token by now, and else a nonterminal.
pub open spec fn named_symbol(g: GrammarView, n: Seq<char>) -> SymbolView {
    if g.tokens.contains(n) {
        SymbolView::Terminal(n)
    } else {
        SymbolView::Nonterminal(n)
    }
}

/// Reads the body of the rule `name` from `i`, which follows white space;
/// `syms` are the symbols of the alternative that is being read. Gives the
/// position behind the closing `;` and the grammar with the rule's
/// alternatives added.
///
/// `|` ends an alternative and begins the next, `;` ends the last. A quoted
/// terminal is a quote, one or more characters other than that quote, and the
/// same quote again; it becomes a token. A name is a terminal if it is a token
/// by then. Anything else where a symbol, `|` or `;` must stand leaves the
/// rule incomplete.
pub open spec fn rule_body(
    s: Seq<char>,
    i: int,
    name: Seq<char>,
    syms: Seq<SymbolView>,
    g: GrammarView,
) -> Result<(int, GrammarView), YaccErrorView>
    decreases s.len() - i,
{
    if !(0 <= i < s.len()) {
        failure(YaccErrorKind::IncompleteRule, i)
    } else if s[i] == '|' {
        proof {
            lemma_skip_ws_bounds(s, i + 1);
        }
        rule_body(s, skip_ws(s, i + 1), name, Seq::empty(), g.with_alternative(name, syms))
    } else if s[i] == ';' {
        Ok((i + 1, g.with_alternative(name, syms)))
    } else if is_quote(s[i]) {
        let e = quote_end(s, i + 1, s[i]);
        if e >= s.len() || e == i + 1 {
            failure(YaccErrorKind::IncompleteRule, i)
        } else {
            let t = s.subrange(i + 1, e);
            proof {
                lemma_quote_end_bounds(s, i + 1, s[i]);
                lemma_skip_ws_bounds(s, e + 1);
            }
            rule_body(
                s,
                skip_ws(s, e + 1),
                name,
                syms.push(SymbolView::Terminal(t)),
                g.with_token(t),
            )
        }
    } else if is_name_start(s[i]) {
        let k = name_end(s, i);
        proof {
            lemma_name_end_bounds(s, i);
            lemma_skip_ws_bounds(s, k);
        }
        rule_body(s, skip_ws(s, k), name, syms.push(named_symbol(g, s.subrange(i, k))), g)
    } else {
        failure(YaccErrorKind::IncompleteRule, i)
    }
}

/// `rule_body` ends behind the place where it began, within the text.
pub proof fn lemma_rule_body_bounds(
    s: Seq<char>,
    i: int,
    name: Seq<char>,
    syms: Seq<SymbolView>,
    g: GrammarView,
)
    requires
        0 <= i <= s.len(),
    ensures
        rule_body(s, i, name, syms, g) matches Ok((k, _)) ==> i < k <= s.len(),
    decreases s.len() - i,
{
    if i < s.len() {
        if s[i] == '|' {
            lemma_skip_ws_bounds(s, i + 1);
            lemma_rule_body_bounds(
                s,
                skip_ws(s, i + 1),
                name,
                Seq::empty(),
                g.with_alternative(name, syms),
            );
        } else if s[i] == ';' {
        } else if is_quote(s[i]) {
            let e = quote_end(s, i + 1, s[i]);
            lemma_quote_end_bounds(s, i + 1, s[i]);
            if !(e >= s.len() || e == i + 1) {
                let t = s.subrange(i + 1, e);
                lemma_skip_ws_bounds(s, e + 1);
                lemma_rule_body_bounds(
                    s,
                    skip_ws(s, e + 1),
                    name,
                    syms.push(SymbolView::Terminal(t)),
                    g.with_token(t),
                );
            }
        } else if is_name_start(s[i]) {
            let k = name_end(s, i);
            lemma_name_end_bounds(s, i);
            lemma_skip_ws_bounds(s, k);
            lemma_rule_body_bounds(
                s,
                skip_ws(s, k),
                name,
                syms.push(named_symbol(g, s.subrange(i, k))),
                g,
            );
        }
    }
}

/// Reads the rules from `i`, which follows white space, to the end of the
/// text. Gives the grammar with the rules' alternatives added.
///
/// A rule is a name, `:`, and a body. A second `%%` is an error, whatever
/// follows it.
pub open spec fn rules(s: Seq<char>, i: int, g: GrammarView) -> Result<GrammarView, YaccErrorView>
    decreases s.len() - i,
{
    if !(0 <= i < s.len()) {
        Ok(g)
    } else if separator_at(s, i) {
        failure(YaccErrorKind::ProgramsNotSupported, i)
    } else if !is_name_start(s[i]) {
        failure(YaccErrorKind::IllegalName, i)
    } else {
        let k = name_end(s, i);
        let j = skip_ws(s, k);
        if !(j < s.len() && s[j] == ':') {
            failure(YaccErrorKind::MissingColon, j)
        } else {
            match rule_body(s, skip_ws(s, j + 1), s.subrange(i, k), Seq::empty(), g) {
                Err(e) => Err(e),
                Ok((p, g2)) => {
                    proof {
                        lemma_name_end_bounds(s, i);
                        lemma_skip_ws_bounds(s, k);
                        lemma_skip_ws_bounds(s, j + 1);
                        lemma_rule_body_bounds(
                            s,
                            skip_ws(s, j + 1),
                            s.subrange(i, k),
                            Seq::empty(),
                            g,
                        );
                        lemma_skip_ws_bounds(s, p);
                    }
                    rules(s, skip_ws(s, p), g2)
                },
            }
        }
    }
}

/// What the grammar text `s` means: the grammar that it declares, or the
/// first error in it.
pub open spec fn parsed(s: Seq<char>) -> Result<GrammarView, YaccErrorView> {
    match declarations(s, skip_ws(s, 0), GrammarView::empty()) {
        Err(e) => Err(e),
        Ok((i, g)) => rules(s, skip_ws(s, i), g),
    }
}

/// `token_list` keeps every terminal of the rules among the tokens.
proof fn lemma_token_list_keeps_terminals(s: Seq<char>, i: int, g: GrammarView)
    requires
        g.terminals_are_tokens(),
    ensures
        token_list(s, i, g).1.terminals_are_tokens(),
    decreases s.len() - i,
{
    if 0 <= i < s.len() && is_name_start(s[i]) {
        let k = name_end(s, i);
        lemma_name_end_bounds(s, i);
        lemma_skip_blanks_bounds(s, k);
        lemma_token_list_keeps_terminals(s, skip_blanks(s, k), g.with_token(s.subrange(i, k)));
    }
}

/// `declarations` keeps every terminal of the rules among the tokens.
proof fn lemma_declarations_keep_terminals(s: Seq<char>, i: int, g: GrammarView)
    requires
        g.terminals_are_tokens(),
    ensures
        declarations(s, i, g) matches Ok((_, g2)) ==> g2.terminals_are_tokens(),
    decreases s.len() - i,
{
    if 0 <= i < s.len() && !separator_at(s, i) && s[i] == '%' {
        let e = name_end(s, i + 1);
        let keyword = s.subrange(i + 1, e);
        let j = skip_blanks(s, e);
        lemma_name_end_bounds(s, i + 1);
        lemma_skip_blanks_bounds(s, e);
        if (keyword == token_keyword() || keyword == start_keyword()) && j < s.len()
            && is_name_start(s[j]) {
            if keyword == token_keyword() {
                let (k, g2) = token_list(s, j, g);
                lemma_token_list_bounds(s, j, g);
                lemma_token_list_keeps_terminals(s, j, g);
                lemma_skip_ws_bounds(s, k);
                lemma_declarations_keep_terminals(s, skip_ws(s, k), g2);
            } else {
                let k = name_end(s, j);
                lemma_name_end_bounds(s, j);
                lemma_skip_ws_bounds(s, k);
                lemma_declarations_keep_terminals(
                    s,
                    skip_ws(s, k),
                    g.with_start(s.subrange(j, k)),
                );
            }
        }
    }
}

/// `rule_body` keeps every terminal of the rules among the tokens, if those
/// of the alternative that is being read are among them.
proof fn lemma_rule_body_keeps_terminals(
    s: Seq<char>,
    i: int,
    name: Seq<char>,
    syms: Seq<SymbolView>,
    g: GrammarView,
)
    requires
        g.terminals_are_tokens(),
        terminals_in(syms).subset_of(g.tokens),
    ensures
        rule_body(s, i, name, syms, g) matches Ok((_, g2)) ==> g2.terminals_are_tokens(),
    decreases s.len() - i,
{
    if 0 <= i < s.len() {
        if s[i] == '|' {
            lemma_skip_ws_bounds(s, i + 1);
            lemma_with_alternative_uses(g.rules, name, syms);
            assert(terminals_in(Seq::<SymbolView>::empty()) =~= Set::<Seq<char>>::empty());
            lemma_rule_body_keeps_terminals(
                s,
                skip_ws(s, i + 1),
                name,
                Seq::empty(),
                g.with_alternative(name, syms),
            );
        } else if s[i] == ';' {
            lemma_with_alternative_uses(g.rules, name, syms);
        } else if is_quote(s[i]) {
            let e = quote_end(s, i + 1, s[i]);
            lemma_quote_end_bounds(s, i + 1, s[i]);
            if !(e >= s.len() || e == i + 1) {
                let t = s.subrange(i + 1, e);
                lemma_skip_ws_bounds(s, e + 1);
                lemma_terminals_in_push(syms, SymbolView::Terminal(t));
                lemma_rule_body_keeps_terminals(
                    s,
                    skip_ws(s, e + 1),
                    name,
                    syms.push(SymbolView::Terminal(t)),
                    g.with_token(t),
                );
            }
        } else if is_name_start(s[i]) {
            let k = name_end(s, i);
            lemma_name_end_bounds(s, i);
            lemma_skip_ws_bounds(s, k);
            lemma_terminals_in_push(syms, named_symbol(g, s.subrange(i, k)));
            lemma_rule_body_keeps_terminals(
                s,
                skip_ws(s, k),
                name,
                syms.push(named_symbol(g, s.subrange(i, k))),
                g,
            );
        }
    }
}

/// `rules` keeps every terminal of the rules among the tokens.
proof fn lemma_rules_keep_terminals(s: Seq<char>, i: int, g: GrammarView)
    requires
        g.terminals_are_tokens(),
    ensures
        rules(s, i, g) matches Ok(g2) ==> g2.terminals_are_tokens(),
    decreases s.len() - i,
{
    if 0 <= i < s.len() && !separator_at(s, i) && is_name_start(s[i]) {
        let k = name_end(s, i);
        let j = skip_ws(s, k);
        if j < s.len() && s[j] == ':' {
            let name = s.subrange(i, k);
            lemma_name_end_bounds(s, i);
            lemma_skip_ws_bounds(s, k);
            lemma_skip_ws_bounds(s, j + 1);
            assert(terminals_in(Seq::<SymbolView>::empty()) =~= Set::<Seq<char>>::empty());
            lemma_rule_body_keeps_terminals(s, skip_ws(s, j + 1), name, Seq::empty(), g);
            lemma_rule_body_bounds(s, skip_ws(s, j + 1), name, Seq::empty(), g);
            match rule_body(s, skip_ws(s, j + 1), name, Seq::empty(), g) {
                Ok((p, g2)) => {
                    lemma_skip_ws_bounds(s, p);
                    lemma_rules_keep_terminals(s, skip_ws(s, p), g2);
                },
                Err(_) => {},
            }
        }
    }
}

/// Every terminal that a rule of a grammar text refers to is a token of the
/// grammar read from it, declared or not.
pub proof fn lemma_parsed_terminals_are_tokens(s: Seq<char>)
    ensures
        parsed(s) matches Ok(g) ==> g.terminals_are_tokens(),
{
    let g0 = GrammarView::empty();
    assert(used_terminals(g0.rules) =~= Set::<Seq<char>>::empty());
    lemma_declarations_keep_terminals(s, skip_ws(s, 0), g0);
    match declarations(s, skip_ws(s, 0), g0) {
        Ok((i, g)) => {
            lemma_rules_keep_terminals(s, skip_ws(s, i), g);
        },
        Err(_) => {},
    }
}

fn ws_char(c: char) -> (r: bool)
    ensures
        r == is_ws(c),
{
    c == ' ' || c == '\t' || c == '\n' || c == '\r'
}

fn name_start_char(c: char) -> (r: bool)
    ensures
        r == is_name_start(c),
{
    ('a' <= c && c <= 'z') || ('A' <= c && c <= 'Z') || c == '_'
}

fn name_char(c: char) -> (r: bool)
    ensures
        r == is_name_char(c),
{
    name_start_char(c) || ('0' <= c && c <= '9')
}

fn scan_ws(src: &Vec<char>, i: usize) -> (r: usize)
    requires
        i <= src.len(),
    ensures
        r == skip_ws(src@, i as int),
        i <= r <= src.len(),
{
    let mut j: usize = i;
    while j < src.len() && ws_char(src[j])
        invariant
            i <= j <= src.len(),
            skip_ws(src@, j as int) == skip_ws(src@, i as int),
        decreases src.len() - j,
    {
        j += 1;
    }
    j
}

fn scan_blanks(src: &Vec<char>, i: usize) -> (r: usize)
    requires
        i <= src.len(),
    ensures
        r == skip_blanks(src@, i as int),
        i <= r <= src.len(),
{
    let mut j: usize = i;
    while j < src.len() && (src[j] == ' ' || src[j] == '\t')
        invariant
            i <= j <= src.len(),
            skip_blanks(src@, j as int) == skip_blanks(src@, i as int),
        decreases src.len() - j,
    {
        j += 1;
    }
    j
}

fn scan_name(src: &Vec<char>, i: usize) -> (r: usize)
    requires
        i <= src.len(),
    ensures
        r == name_end(src@, i as int),
        i <= r <= src.len(),
        i < src.len() && is_name_char(src@[i as int]) ==> i < r,
{
    let mut j: usize = i;
    while j < src.len() && name_char(src[j])
        invariant
            i <= j <= src.len(),
            name_end(src@, j as int) == name_end(src@, i as int),
            i < src.len() && is_name_char(src@[i as int]) && j < src.len() && !is_name_char(
                src@[j as int],
            ) ==> i < j,
            j == src.len() && i < src.len() ==> i < j,
        decreases src.len() - j,
    {
        j += 1;
    }
    j
}

fn scan_quote(src: &Vec<char>, i: usize, q: char) -> (r: usize)
    requires
        i <= src.len(),
    ensures
        r == quote_end(src@, i as int, q),
        i <= r <= src.len(),
{
    let mut j: usize = i;
    while j < src.len() && src[j] != q
        invariant
            i <= j <= src.len(),
            quote_end(src@, j as int, q) == quote_end(src@, i as int, q),
        decreases src.len() - j,
    {
        j += 1;
    }
    j
}

/// Whether `src[from..to]` is the keyword of five letters `a b c d e`.
fn keyword_is(
    src: &Vec<char>,
    from: usize,
    to: usize,
    a: char,
    b: char,
    c: char,
    d: char,
    e: char,
) -> (r: bool)
    requires
        from <= to <= src.len(),
    ensures
        r == (src@.subrange(from as int, to as int) == seq![a, b, c, d, e]),
{
    let ghost word = src@.subrange(from as int, to as int);
    if to - from != 5 {
        assert(word.len() != 5);
        return false;
    }
    let r = src[from] == a && src[from + 1] == b && src[from + 2] == c && src[from + 3] == d
        && src[from + 4] == e;
    proof {
        if r {
            assert(word =~= seq![a, b, c, d, e]);
        } else {
            assert(word[0] == src@[from as int]);
            assert(word[1] == src@[from + 1]);
            assert(word[2] == src@[from + 2]);
            assert(word[3] == src@[from + 3]);
            assert(word[4] == src@[from + 4]);
        }
    }
    r
}

fn parse_declarations(src: &Vec<char>, g: &mut GrammarAST) -> (r: Result<usize, YaccError>)
    ensures
        match declarations(src@, skip_ws(src@, 0), old(g)@) {
            Ok((k, gv)) => r matches Ok(p) && p == k && 0 <= k <= src.len() && final(g)@ == gv,
            Err(e) => r matches Err(x) && x@ == e && x.off <= src.len(),
        },
{
    let mut i: usize = scan_ws(src, 0);
    loop
        invariant
            i <= src.len(),
            declarations(src@, i as int, g@) == declarations(src@, skip_ws(src@, 0), old(g)@),
        decreases src.len() - i,
    {
        if i >= src.len() {
            return Err(YaccError { kind: YaccErrorKind::PrematureEnd, off: i });
        }
        if src[i] != '%' {
            return Err(YaccError { kind: YaccErrorKind::UnknownDeclaration, off: i });
        }
        if i + 1 < src.len() && src[i + 1] == '%' {
            return Ok(i + 2);
        }
        let e = scan_name(src, i + 1);
        let is_token = keyword_is(src, i + 1, e, 't', 'o', 'k', 'e', 'n');
        let is_start = keyword_is(src, i + 1, e, 's', 't', 'a', 'r', 't');
        if !is_token && !is_start {
            return Err(YaccError { kind: YaccErrorKind::UnknownDeclaration, off: i });
        }
        let j = scan_blanks(src, e);
        if j >= src.len() {
            return Err(YaccError { kind: YaccErrorKind::PrematureEnd, off: j });
        }
        if !name_start_char(src[j]) {
            return Err(YaccError { kind: YaccErrorKind::IllegalName, off: j });
        }
        if is_token {
            let mut k: usize = j;
            let ghost listed = token_list(src@, j as int, g@);
            while k < src.len() && name_start_char(src[k])
                invariant
                            j <= k <= src.len(),
                    k == j ==> j < src.len() && is_name_start(src@[j as int]),
                    token_list(src@, k as int, g@) == listed,
                decreases src.len() - k,
            {
                let e2 = scan_name(src, k);
                g.add_token(string_of(src, k, e2));
                k = scan_blanks(src, e2);
            }
            i = scan_ws(src, k);
        } else {
            let k = scan_name(src, j);
            g.set_start(string_of(src, j, k));
            i = scan_ws(src, k);
        }
    }
}

fn parse_body(src: &Vec<char>, start: usize, name: &String, g: &mut GrammarAST) -> (r: Result<
    usize,
    YaccError,
>)
    requires
        start <= src.len(),
    ensures
        match rule_body(src@, start as int, name@, Seq::empty(), old(g)@) {
            Ok((k, gv)) => r matches Ok(p) && p == k && start < k <= src.len() && final(g)@
                == gv,
            Err(e) => r matches Err(x) && x@ == e && x.off <= src.len(),
        },
{
    let mut i: usize = start;
    let mut syms: Vec<Symbol> = Vec::new();
    assert(symbol_views(syms@) =~= Seq::empty());
    loop
        invariant
            start <= i <= src.len(),
            rule_body(src@, i as int, name@, symbol_views(syms@), g@) == rule_body(
                src@,
                start as int,
                name@,
                Seq::empty(),
                old(g)@,
            ),
        decreases src.len() - i,
    {
        if i >= src.len() {
            return Err(YaccError { kind: YaccErrorKind::IncompleteRule, off: i });
        }
        let c = src[i];
        if c == '|' {
            g.add_rule(name.clone(), syms);
            syms = Vec::new();
            assert(symbol_views(syms@) =~= Seq::empty());
            i = scan_ws(src, i + 1);
        } else if c == ';' {
            g.add_rule(name.clone(), syms);
            return Ok(i + 1);
        } else if c == '\'' || c == '"' {
            let e = scan_quote(src, i + 1, c);
            if e >= src.len() || e == i + 1 {
                return Err(YaccError { kind: YaccErrorKind::IncompleteRule, off: i });
            }
            let t = string_of(src, i + 1, e);
            g.add_token(t.clone());
            let sym = Symbol::Terminal(t);
            proof {
                lemma_symbol_views_push(syms@, sym);
            }
            syms.push(sym);
            i = scan_ws(src, e + 1);
        } else if name_start_char(c) {
            let k = scan_name(src, i);
            let n = string_of(src, i, k);
            let sym = if g.has_token(n.as_str()) {
                Symbol::Terminal(n)
            } else {
                Symbol::Nonterminal(n)
            };
            proof {
                lemma_symbol_views_push(syms@, sym);
            }
            syms.push(sym);
            i = scan_ws(src, k);
        } else {
            return Err(YaccError { kind: YaccErrorKind::IncompleteRule, off: i });
        }
    }
}

fn parse_rules(src: &Vec<char>, start: usize, g: &mut GrammarAST) -> (r: Result<(), YaccError>)
    requires
        start <= src.len(),
    ensures
        match rules(src@, skip_ws(src@, start as int), old(g)@) {
            Ok(gv) => r is Ok && final(g)@ == gv,
            Err(e) => r matches Err(x) && x@ == e && x.off <= src.len(),
        },
{
    let mut i: usize = scan_ws(src, start);
    loop
        invariant
            i <= src.len(),
            rules(src@, i as int, g@) == rules(src@, skip_ws(src@, start as int), old(g)@),
        decreases src.len() - i,
    {
        if i >= src.len() {
            return Ok(());
        }
        if src[i] == '%' && i + 1 < src.len() && src[i + 1] == '%' {
            return Err(YaccError { kind: YaccErrorKind::ProgramsNotSupported, off: i });
        }
        if !name_start_char(src[i]) {
            return Err(YaccError { kind: YaccErrorKind::IllegalName, off: i });
        }
        let k = scan_name(src, i);
        let name = string_of(src, i, k);
        let j = scan_ws(src, k);
        if !(j < src.len() && src[j] == ':') {
            return Err(YaccError { kind: YaccErrorKind::MissingColon, off: j });
        }
        let body_start = scan_ws(src, j + 1);
        match parse_body(src, body_start, &name, g) {
            Ok(p) => {
                i = scan_ws(src, p);
            },
            Err(e) => {
                return Err(e);
            },
        }
    }
}

/// Reads the grammar text `s`.
pub fn parse_yacc(s: &String) -> (r: Result<GrammarAST, YaccError>)
    ensures
        match parsed(s@) {
            Ok(gv) => r matches Ok(g) && g@ == gv && g@.terminals_are_tokens(),
            Err(e) => r matches Err(x) && x@ == e && x.off <= s@.len(),
        },
{
    proof {
        lemma_parsed_terminals_are_tokens(s@);
    }
    let src = chars_of(s.as_str());
    let mut g = GrammarAST::new();
    let i = match parse_declarations(&src, &mut g) {
        Ok(i) => i,
        Err(e) => {
            return Err(e);
        },
    };
    match parse_rules(&src, i, &mut g) {
        Ok(_) => Ok(g),
        Err(e) => Err(e),
    }
}

} // verus!
