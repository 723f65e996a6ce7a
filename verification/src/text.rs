//! Character-level helpers shared by the grammar reader and the generator.

use vstd::prelude::*;
use vstd::std_specs::iter::IteratorSpec;

verus! {

/// The characters of `s`, in order.
pub fn chars_of(s: &str) -> (r: Vec<char>)
    ensures
        r@ == s@,
{
    let mut out: Vec<char> = Vec::new();
    for c in it: s.chars()
        invariant
            it.seq() == s@,
            out@ == it.seq().take(it.index() as int),
    {
        out.push(c);
    }
    out
}

/// The text held by `v[from..to]`.
pub fn string_of(v: &Vec<char>, from: usize, to: usize) -> (r: String)
    requires
        from <= to <= v.len(),
    ensures
        r@ == v@.subrange(from as int, to as int),
{
    let mut out = String::new();
    let mut i: usize = from;
    while i < to
        invariant
            from <= i <= to <= v.len(),
            out@ == v@.subrange(from as int, i as int),
        decreases to - i,
    {
        out.push(v[i]);
        i += 1;
    }
    out
}

} // verus!

verus! {

/// The decimal digit that stands for `d`.
pub open spec fn digit_char(d: nat) -> char
    recommends
        d < 10,
{
    if d == 0 {
        '0'
    } else if d == 1 {
        '1'
    } else if d == 2 {
        '2'
    } else if d == 3 {
        '3'
    } else if d == 4 {
        '4'
    } else if d == 5 {
        '5'
    } else if d == 6 {
        '6'
    } else if d == 7 {
        '7'
    } else if d == 8 {
        '8'
    } else {
        '9'
    }
}

/// The decimal numeral of `n`, without sign and without leading zeros.
pub open spec fn decimal(n: nat) -> Seq<char>
    decreases n,
{
    if n < 10 {
        seq![digit_char(n)]
    } else {
        decimal(n / 10).push(digit_char(n % 10))
    }
}

fn digit_of(d: u64) -> (c: char)
    requires
        d < 10,
    ensures
        c == digit_char(d as nat),
{
    if d == 0 {
        '0'
    } else if d == 1 {
        '1'
    } else if d == 2 {
        '2'
    } else if d == 3 {
        '3'
    } else if d == 4 {
        '4'
    } else if d == 5 {
        '5'
    } else if d == 6 {
        '6'
    } else if d == 7 {
        '7'
    } else if d == 8 {
        '8'
    } else {
        '9'
    }
}

/// Appends the decimal numeral of `n` to `out`.
pub fn push_decimal(out: &mut String, n: u64)
    ensures
        final(out)@ == old(out)@ + decimal(n as nat),
    decreases n,
{
    if n >= 10 {
        push_decimal(out, n / 10);
    }
    out.push(digit_of(n % 10));
    assert(out@ =~= old(out)@ + decimal(n as nat));
}

/// The upper-case form of an ASCII lower-case letter; any other character is
/// left as it is.
pub open spec fn upper_char(c: char) -> char {
    if 'a' <= c && c <= 'z' {
        ((c as u8) - 32) as char
    } else {
        c
    }
}

/// `s` with each ASCII lower-case letter in upper case.
pub open spec fn ascii_upper(s: Seq<char>) -> Seq<char> {
    s.map_values(|c: char| upper_char(c))
}

/// Appends to `out` the text `s` with each ASCII lower-case letter in upper
/// case.
pub fn push_ascii_upper(out: &mut String, s: &str)
    ensures
        final(out)@ == old(out)@ + ascii_upper(s@),
{
    let ghost start = out@;
    for c in it: s.chars()
        invariant
            it.seq() == s@,
            out@ == start + ascii_upper(it.seq().take(it.index() as int)),
    {
        let ghost done = it.seq().take(it.index() as int);
        let u = if 'a' <= c && c <= 'z' {
            ((c as u8) - 32) as char
        } else {
            c
        };
        out.push(u);
        assert(it.seq().take(it.index() + 1) =~= done.push(c));
        assert(ascii_upper(done.push(c)) =~= ascii_upper(done).push(u));
        assert(out@ =~= start + ascii_upper(done.push(c)));
    }
    assert(s@.take(s@.len() as int) =~= s@);
}

/// How one character of a pattern is written inside a string literal: a
/// backslash before a backslash or a double quote, any other character as it
/// is.
pub open spec fn escaped_char(c: char) -> Seq<char> {
    if c == '\\' || c == '"' {
        seq!['\\', c]
    } else {
        seq![c]
    }
}

/// `p` as it is written inside a string literal.
pub open spec fn escaped(p: Seq<char>) -> Seq<char>
    decreases p.len(),
{
    if p.len() == 0 {
        Seq::empty()
    } else {
        escaped_char(p[0]) + escaped(p.drop_first())
    }
}

/// The text that the body `t` of a string literal stands for: a backslash
/// gives way to the character behind it.
pub open spec fn unescaped(t: Seq<char>) -> Seq<char>
    decreases t.len(),
{
    if t.len() == 0 {
        Seq::empty()
    } else if t[0] == '\\' && t.len() >= 2 {
        seq![t[1]] + unescaped(t.subrange(2, t.len() as int))
    } else {
        seq![t[0]] + unescaped(t.drop_first())
    }
}

/// Escaping distributes over concatenation.
pub proof fn lemma_escaped_concat(a: Seq<char>, b: Seq<char>)
    ensures
        escaped(a + b) == escaped(a) + escaped(b),
    decreases a.len(),
{
    if a.len() == 0 {
        assert(a + b =~= b);
        assert(escaped(a) + escaped(b) =~= escaped(b));
    } else {
        assert((a + b).drop_first() =~= a.drop_first() + b);
        lemma_escaped_concat(a.drop_first(), b);
        assert(escaped(a + b) =~= escaped(a) + escaped(b));
    }
}

/// Reading back what escaping wrote gives the pattern that was escaped.
pub proof fn lemma_escape_round_trip(p: Seq<char>)
    ensures
        unescaped(escaped(p)) == p,
    decreases p.len(),
{
    if p.len() == 0 {
    } else {
        let c = p[0];
        let rest = escaped(p.drop_first());
        lemma_escape_round_trip(p.drop_first());
        let t = escaped(p);
        if c == '\\' || c == '"' {
            assert(t =~= seq!['\\', c] + rest);
            assert(t.subrange(2, t.len() as int) =~= rest);
        } else {
            assert(t =~= seq![c] + rest);
            assert(t.drop_first() =~= rest);
        }
        assert(unescaped(t) =~= seq![c] + p.drop_first());
        assert(seq![c] + p.drop_first() =~= p);
    }
}

/// Appends `p` to `out` as it is written inside a string literal.
pub fn push_escaped(out: &mut String, p: &str)
    ensures
        final(out)@ == old(out)@ + escaped(p@),
{
    let ghost start = out@;
    for c in it: p.chars()
        invariant
            it.seq() == p@,
            out@ == start + escaped(it.seq().take(it.index() as int)),
    {
        let ghost done = it.seq().take(it.index() as int);
        proof {
            lemma_escaped_concat(done, seq![c]);
            assert(it.seq().take(it.index() + 1) =~= done + seq![c]);
            assert(seq![c].drop_first() =~= Seq::<char>::empty());
            assert(escaped(seq![c].drop_first()) =~= Seq::<char>::empty());
            assert(escaped(seq![c]) =~= escaped_char(c));
        }
        if c == '\\' || c == '"' {
            out.push('\\');
        }
        out.push(c);
        assert(out@ =~= start + (escaped(done) + escaped_char(c)));
    }
    assert(p@.take(p@.len() as int) =~= p@);
}

/// `p` as it is written inside a string literal.
pub fn escape(p: &str) -> (r: String)
    ensures
        r@ == escaped(p@),
{
    let mut out = String::new();
    push_escaped(&mut out, p);
    assert(out@ =~= escaped(p@));
    out
}

/// The text that the body `t` of a string literal stands for.
pub fn unescape(t: &str) -> (r: String)
    ensures
        r@ == unescaped(t@),
{
    let v = chars_of(t);
    let mut out = String::new();
    let mut i: usize = 0;
    assert(v@.subrange(0, v.len() as int) =~= v@);
    assert(out@ + unescaped(v@) =~= unescaped(v@));
    while i < v.len()
        invariant
            i <= v.len(),
            v@ == t@,
            out@ + unescaped(v@.subrange(i as int, v.len() as int)) == unescaped(t@),
        decreases v.len() - i,
    {
        let ghost rest = v@.subrange(i as int, v.len() as int);
        let ghost before = out@;
        if v[i] == '\\' && v.len() - i >= 2 {
            out.push(v[i + 1]);
            assert(rest.subrange(2, rest.len() as int) =~= v@.subrange(i + 2, v.len() as int));
            assert(out@ + unescaped(v@.subrange(i + 2, v.len() as int)) =~= before + unescaped(
                rest,
            )) by {
                assert(rest[0] == '\\' && rest.len() >= 2);
            }
            i += 2;
        } else {
            out.push(v[i]);
            assert(rest.drop_first() =~= v@.subrange(i + 1, v.len() as int));
            assert(out@ + unescaped(v@.subrange(i + 1, v.len() as int)) =~= before + unescaped(
                rest,
            ));
            i += 1;
        }
    }
    assert(out@ + Seq::<char>::empty() =~= out@);
    out
}

} // verus!
