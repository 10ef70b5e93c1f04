//! Escaping of text for XML (feeds, sitemaps) and HTML (code blocks).

use vstd::prelude::*;
use crate::text::push_char;

verus! {

broadcast use vstd::string::group_string_axioms;

/// The entity for `&`.
pub open spec fn amp() -> Seq<char> {
    seq!['&', 'a', 'm', 'p', ';']
}

/// The entity for `<`.
pub open spec fn lt() -> Seq<char> {
    seq!['&', 'l', 't', ';']
}

/// The entity for `>`.
pub open spec fn gt() -> Seq<char> {
    seq!['&', 'g', 't', ';']
}

/// The entity for `"`.
pub open spec fn quot() -> Seq<char> {
    seq!['&', 'q', 'u', 'o', 't', ';']
}

/// The entity for `'`.
pub open spec fn apos() -> Seq<char> {
    seq!['&', 'a', 'p', 'o', 's', ';']
}

/// What one character becomes: `&`, `<`, `>` and `"` always become entities,
/// `'` only when `with_apos` holds, anything else stays as it is.
pub open spec fn entity(c: char, with_apos: bool) -> Seq<char> {
    if c == '&' {
        amp()
    } else if c == '<' {
        lt()
    } else if c == '>' {
        gt()
    } else if c == '"' {
        quot()
    } else if c == '\'' && with_apos {
        apos()
    } else {
        seq![c]
    }
}

/// `s` with every character replaced by its entity.
pub open spec fn escaped(s: Seq<char>, with_apos: bool) -> Seq<char>
    decreases s.len(),
{
    if s.len() == 0 {
        seq![]
    } else {
        escaped(s.drop_last(), with_apos) + entity(s.last(), with_apos)
    }
}

/// XML escaping: the five predefined entities.
pub open spec fn xml_escaped(s: Seq<char>) -> Seq<char> {
    escaped(s, true)
}

/// HTML escaping: `&`, `<`, `>` and `"`.
pub open spec fn html_escaped(s: Seq<char>) -> Seq<char> {
    escaped(s, false)
}

/// Reads the entities back: the inverse of escaping.
pub open spec fn unescaped(s: Seq<char>) -> Seq<char>
    decreases s.len(),
{
    if s.len() == 0 {
        seq![]
    } else if s.len() >= 5 && s.take(5) == amp() {
        seq!['&'] + unescaped(s.skip(5))
    } else if s.len() >= 4 && s.take(4) == lt() {
        seq!['<'] + unescaped(s.skip(4))
    } else if s.len() >= 4 && s.take(4) == gt() {
        seq!['>'] + unescaped(s.skip(4))
    } else if s.len() >= 6 && s.take(6) == quot() {
        seq!['"'] + unescaped(s.skip(6))
    } else if s.len() >= 6 && s.take(6) == apos() {
        seq!['\''] + unescaped(s.skip(6))
    } else {
        seq![s[0]] + unescaped(s.drop_first())
    }
}

proof fn lemma_escaped_concat(a: Seq<char>, b: Seq<char>, with_apos: bool)
    ensures
        escaped(a + b, with_apos) == escaped(a, with_apos) + escaped(b, with_apos),
    decreases b.len(),
{
    if b.len() == 0 {
        assert(a + b =~= a);
        assert(escaped(b, with_apos) =~= seq![]);
        assert(escaped(a, with_apos) + seq![] =~= escaped(a, with_apos));
    } else {
        lemma_escaped_concat(a, b.drop_last(), with_apos);
        assert((a + b).drop_last() =~= a + b.drop_last());
        assert((a + b).last() == b.last());
        assert(escaped(a + b, with_apos) == escaped(a + b.drop_last(), with_apos) + entity(b.last(), with_apos));
        assert(escaped(a, with_apos) + escaped(b.drop_last(), with_apos) + entity(b.last(), with_apos)
            =~= escaped(a, with_apos) + (escaped(b.drop_last(), with_apos) + entity(b.last(), with_apos)));
    }
}

proof fn lemma_escaped_first(s: Seq<char>, with_apos: bool)
    requires
        s.len() > 0,
    ensures
        escaped(s, with_apos) == entity(s[0], with_apos) + escaped(s.drop_first(), with_apos),
{
    assert(s =~= seq![s[0]] + s.drop_first());
    lemma_escaped_concat(seq![s[0]], s.drop_first(), with_apos);
    assert(seq![s[0]].drop_last() =~= Seq::<char>::empty());
    assert(escaped(Seq::<char>::empty(), with_apos) =~= Seq::<char>::empty());
    assert(Seq::<char>::empty() + entity(s[0], with_apos) =~= entity(s[0], with_apos));
    assert(escaped(seq![s[0]], with_apos) =~= entity(s[0], with_apos));
}

proof fn lemma_unescaped_entity(c: char, rest: Seq<char>, with_apos: bool)
    ensures
        unescaped(entity(c, with_apos) + rest) == seq![c] + unescaped(rest),
{
    let e = entity(c, with_apos);
    let s = e + rest;
    assert(s.take(e.len() as int) =~= e);
    assert(s.skip(e.len() as int) =~= rest);
    assert(e.len() > 1 ==> s[1] == e[1]);
    assert(s[0] == e[0]);
    if c == '&' {
    } else if c == '<' {
        assert(s.take(5) != amp() || s.len() < 5) by {
            if s.len() >= 5 {
                assert(s.take(5)[1] != amp()[1]);
            }
        }
    } else if c == '>' {
        assert(s.take(5) != amp() || s.len() < 5) by {
            if s.len() >= 5 {
                assert(s.take(5)[1] != amp()[1]);
            }
        }
        assert(s.take(4)[1] != lt()[1]);
    } else if c == '"' {
        assert(s.take(5)[1] != amp()[1]);
        assert(s.take(4)[1] != lt()[1]);
        assert(s.take(4)[1] != gt()[1]);
    } else if c == '\'' && with_apos {
        assert(s[2] == e[2]);
        assert(s.take(5)[2] != amp()[2]);
        assert(s.take(4)[1] != lt()[1]);
        assert(s.take(4)[1] != gt()[1]);
        assert(s.take(6)[1] != quot()[1]);
    } else {
        assert(s[0] == c);
        assert(s.len() >= 5 ==> s.take(5)[0] != amp()[0]);
        assert(s.len() >= 4 ==> s.take(4)[0] != lt()[0]);
        assert(s.len() >= 4 ==> s.take(4)[0] != gt()[0]);
        assert(s.len() >= 6 ==> s.take(6)[0] != quot()[0]);
        assert(s.len() >= 6 ==> s.take(6)[0] != apos()[0]);
        assert(s.drop_first() =~= rest);
    }
}

/// Escaping loses nothing: reading the entities back gives the original text,
/// for XML and for HTML escaping alike.
pub proof fn escaping_round_trips(s: Seq<char>, with_apos: bool)
    ensures
        unescaped(escaped(s, with_apos)) == s,
    decreases s.len(),
{
    if s.len() > 0 {
        lemma_escaped_first(s, with_apos);
        escaping_round_trips(s.drop_first(), with_apos);
        lemma_unescaped_entity(s[0], escaped(s.drop_first(), with_apos), with_apos);
        assert(seq![s[0]] + s.drop_first() =~= s);
    }
}

/// Escaped text holds no markup character: no `<`, `>` or `"`, and no `'`
/// when apostrophes are escaped too.
pub proof fn escaped_has_no_markup(s: Seq<char>, with_apos: bool)
    ensures
        forall|i: int|
            0 <= i < escaped(s, with_apos).len() ==> {
                let c = #[trigger] escaped(s, with_apos)[i];
                &&& c != '<'
                &&& c != '>'
                &&& c != '"'
                &&& with_apos ==> c != '\''
            },
    decreases s.len(),
{
    if s.len() > 0 {
        escaped_has_no_markup(s.drop_last(), with_apos);
        let a = escaped(s.drop_last(), with_apos);
        let e = entity(s.last(), with_apos);
        assert forall|i: int| 0 <= i < (a + e).len() implies {
            let c = #[trigger] (a + e)[i];
            &&& c != '<'
            &&& c != '>'
            &&& c != '"'
            &&& with_apos ==> c != '\''
        } by {
            if i < a.len() {
                assert((a + e)[i] == a[i]);
            } else {
                assert((a + e)[i] == e[i - a.len()]);
            }
        }
    }
}

fn push_escaped(out: &mut String, c: char, with_apos: bool)
    ensures
        final(out)@ == old(out)@ + entity(c, with_apos),
{
    if c == '&' {
        out.append("&amp;");
        proof { reveal_strlit("&amp;"); }
    } else if c == '<' {
        out.append("&lt;");
        proof { reveal_strlit("&lt;"); }
    } else if c == '>' {
        out.append("&gt;");
        proof { reveal_strlit("&gt;"); }
    } else if c == '"' {
        out.append("&quot;");
        proof { reveal_strlit("&quot;"); }
    } else if c == '\'' && with_apos {
        out.append("&apos;");
        proof { reveal_strlit("&apos;"); }
    } else {
        push_char(out, c);
        assert(old(out)@.push(c) =~= old(out)@ + seq![c]);
    }
}

fn escape(source: &str, with_apos: bool) -> (out: String)
    ensures
        out@ == escaped(source@, with_apos),
{
    let mut out = String::new();
    for c in it: source.chars()
        invariant
            out@ == escaped(it.seq().take(it.index() as int), with_apos),
    {
        let ghost before = it.seq().take(it.index() as int);
        push_escaped(&mut out, c, with_apos);
        assert(it.seq().take(it.index() + 1).drop_last() =~= before);
    }
    assert(source@.take(source@.len() as int) =~= source@);
    out
}

/// Replaces `&`, `<`, `>`, `"` and `'` by their XML entities.
pub fn escape_xml(source: &str) -> (out: String)
    ensures
        out@ == xml_escaped(source@),
{
    escape(source, true)
}

/// Replaces `&`, `<`, `>` and `"` by their HTML entities.
pub fn escape_html(source: &str) -> (out: String)
    ensures
        out@ == html_escaped(source@),
{
    escape(source, false)
}

} // verus!
