//! Character-level text helpers shared by the rest of the library.

use vstd::prelude::*;

verus! {

broadcast use vstd::string::group_string_axioms;

/// Appends one character to a `String` (`String::push`); the claim is that the
/// string afterwards is the old one with `c` added at the end.
#[verifier::external_body]
pub(crate) fn push_char(s: &mut String, c: char)
    ensures
        final(s)@ == old(s)@.push(c),
{
    s.push(c);
}

/// The characters of `s`, in order.
pub fn chars_of(s: &str) -> (v: Vec<char>)
    ensures
        v@ == s@,
{
    let mut v: Vec<char> = Vec::new();
    for c in it: s.chars()
        invariant
            v@ == it.seq().take(it.index() as int),
    {
        v.push(c);
    }
    assert(v@ == s@);
    v
}

/// A `String` holding `chars[start..end]`.
pub fn string_of(chars: &[char], start: usize, end: usize) -> (s: String)
    requires
        start <= end <= chars@.len(),
    ensures
        s@ == chars@.subrange(start as int, end as int),
{
    let mut s = String::new();
    let mut i = start;
    while i < end
        invariant
            start <= i <= end <= chars@.len(),
            s@ == chars@.subrange(start as int, i as int),
        decreases end - i,
    {
        push_char(&mut s, chars[i]);
        assert(chars@.subrange(start as int, i + 1) =~= chars@.subrange(start as int, i as int).push(chars@[i as int]));
        i += 1;
    }
    s
}

/// Unicode `White_Space`, the property that `char::is_whitespace`, `str::trim`
/// and `str::split_whitespace` use.
pub open spec fn is_white_space(c: char) -> bool {
    ||| ('\u{9}' <= c && c <= '\u{d}')
    ||| c == ' '
    ||| c == '\u{85}'
    ||| c == '\u{a0}'
    ||| c == '\u{1680}'
    ||| ('\u{2000}' <= c && c <= '\u{200a}')
    ||| c == '\u{2028}'
    ||| c == '\u{2029}'
    ||| c == '\u{202f}'
    ||| c == '\u{205f}'
    ||| c == '\u{3000}'
}

/// Whether `c` is Unicode white space.
pub fn is_white_space_char(c: char) -> (b: bool)
    ensures
        b == is_white_space(c),
{
    ('\u{9}' <= c && c <= '\u{d}') || c == ' ' || c == '\u{85}' || c == '\u{a0}' || c == '\u{1680}'
        || ('\u{2000}' <= c && c <= '\u{200a}') || c == '\u{2028}' || c == '\u{2029}'
        || c == '\u{202f}' || c == '\u{205f}' || c == '\u{3000}'
}

/// Number of leading white-space characters of `s`.
pub open spec fn leading_white_space(s: Seq<char>) -> nat
    decreases s.len(),
{
    if s.len() > 0 && is_white_space(s[0]) {
        1 + leading_white_space(s.drop_first())
    } else {
        0
    }
}

/// `s` without its leading white space (`str::trim_start`).
pub open spec fn trim_start(s: Seq<char>) -> Seq<char> {
    s.skip(leading_white_space(s) as int)
}

/// The index of the first character at or after `from` that is not white space.
pub fn skip_white_space(chars: &[char], from: usize) -> (i: usize)
    requires
        from <= chars@.len(),
    ensures
        from <= i <= chars@.len(),
        i == from + leading_white_space(chars@.skip(from as int)),
{
    let mut i = from;
    while i < chars.len() && is_white_space_char(chars[i])
        invariant
            from <= i <= chars@.len(),
            leading_white_space(chars@.skip(from as int)) == (i - from) + leading_white_space(
                chars@.skip(i as int),
            ),
        decreases chars@.len() - i,
    {
        assert(chars@.skip(i as int).drop_first() =~= chars@.skip(i + 1));
        i += 1;
    }
    i
}

/// The two characters are equal once ASCII letters are folded to one case.
pub open spec fn same_ignoring_ascii_case(a: char, b: char) -> bool {
    ||| a == b
    ||| ('a' <= a && a <= 'z' && (a as u32) - 32 == (b as u32))
    ||| ('A' <= a && a <= 'Z' && (a as u32) + 32 == (b as u32))
}

/// The two sequences match when ASCII case is ignored (`str::eq_ignore_ascii_case`).
pub open spec fn eq_ignore_ascii_case(a: Seq<char>, b: Seq<char>) -> bool {
    &&& a.len() == b.len()
    &&& forall|i: int| 0 <= i < a.len() ==> same_ignoring_ascii_case(#[trigger] a[i], b[i])
}

/// Whether `a[from..to]` matches `b` with ASCII case ignored.
pub fn range_eq_ignore_ascii_case(a: &[char], from: usize, to: usize, b: &str) -> (r: bool)
    requires
        from <= to <= a@.len(),
    ensures
        r == eq_ignore_ascii_case(a@.subrange(from as int, to as int), b@),
{
    let bc = chars_of(b);
    if to - from != bc.len() {
        return false;
    }
    let mut i: usize = 0;
    while i < bc.len()
        invariant
            from <= to <= a@.len(),
            to - from == bc@.len(),
            bc@ == b@,
            i <= bc@.len(),
            forall|j: int| 0 <= j < i ==> same_ignoring_ascii_case(a@[from + j], bc@[j]),
        decreases bc@.len() - i,
    {
        let x = a[from + i];
        let y = bc[i];
        let same = x == y || ('a' <= x && x <= 'z' && (x as u32) - 32 == (y as u32)) || (
        'A' <= x && x <= 'Z' && (x as u32) + 32 == (y as u32));
        if !same {
            assert(!same_ignoring_ascii_case(a@.subrange(from as int, to as int)[i as int], b@[i as int]));
            return false;
        }
        i += 1;
    }
    assert forall|j: int| 0 <= j < a@.subrange(from as int, to as int).len() implies same_ignoring_ascii_case(
        #[trigger] a@.subrange(from as int, to as int)[j],
        b@[j],
    ) by {
        assert(a@.subrange(from as int, to as int)[j] == a@[from + j]);
    }
    true
}

/// `s` starts with `prefix`.
pub open spec fn starts_with(s: Seq<char>, prefix: Seq<char>) -> bool {
    prefix.len() <= s.len() && s.take(prefix.len() as int) == prefix
}

/// `s` ends with `suffix`.
pub open spec fn ends_with(s: Seq<char>, suffix: Seq<char>) -> bool {
    suffix.len() <= s.len() && s.skip(s.len() - suffix.len()) == suffix
}

/// Whether `chars[at..]` starts with `word`.
pub fn matches_at(chars: &[char], at: usize, word: &str) -> (r: bool)
    requires
        at <= chars@.len(),
    ensures
        r == starts_with(chars@.skip(at as int), word@),
{
    let w = chars_of(word);
    let n = chars.len();
    if w.len() > n - at {
        return false;
    }
    let mut i: usize = 0;
    while i < w.len()
        invariant
            n == chars@.len(),
            at <= chars@.len(),
            w@ == word@,
            w@.len() <= chars@.len() - at,
            i <= w@.len(),
            forall|j: int| 0 <= j < i ==> chars@[at + j] == w@[j],
        decreases w@.len() - i,
    {
        assert(at + i < n);
        if chars[at + i] != w[i] {
            assert(chars@.skip(at as int).take(w@.len() as int)[i as int] != word@[i as int]);
            return false;
        }
        i += 1;
    }
    assert(chars@.skip(at as int).take(w@.len() as int) =~= word@);
    true
}

/// Whether `chars` ends with `word`.
pub fn ends_with_word(chars: &[char], word: &str) -> (r: bool)
    ensures
        r == ends_with(chars@, word@),
{
    let w = chars_of(word);
    if w.len() > chars.len() {
        return false;
    }
    let at = chars.len() - w.len();
    let r = matches_at(chars, at, word);
    assert(chars@.skip(at as int).take(w@.len() as int) =~= chars@.skip(at as int));
    r
}

/// Number of trailing white-space characters of `s`.
pub open spec fn trailing_white_space(s: Seq<char>) -> nat
    decreases s.len(),
{
    if s.len() > 0 && is_white_space(s.last()) {
        1 + trailing_white_space(s.drop_last())
    } else {
        0
    }
}

/// `s` without leading and trailing white space (`str::trim`).
pub open spec fn trim(s: Seq<char>) -> Seq<char> {
    let t = trim_start(s);
    t.take(t.len() - trailing_white_space(t))
}

/// The characters of `chars[from..to]` with white space trimmed from both ends.
pub fn trimmed(chars: &[char], from: usize, to: usize) -> (r: Vec<char>)
    requires
        from <= to <= chars@.len(),
    ensures
        r@ == trim(chars@.subrange(from as int, to as int)),
{
    let ghost s = chars@.subrange(from as int, to as int);
    let mut start = from;
    while start < to && is_white_space_char(chars[start])
        invariant
            from <= start <= to <= chars@.len(),
            leading_white_space(s) == (start - from) + leading_white_space(
                chars@.subrange(start as int, to as int),
            ),
        decreases to - start,
    {
        assert(chars@.subrange(start as int, to as int).drop_first() =~= chars@.subrange(start + 1, to as int));
        start += 1;
    }
    assert(trim_start(s) =~= chars@.subrange(start as int, to as int));
    let mut end = to;
    while end > start && is_white_space_char(chars[end - 1])
        invariant
            from <= start <= end <= to <= chars@.len(),
            trailing_white_space(chars@.subrange(start as int, to as int)) == (to - end)
                + trailing_white_space(chars@.subrange(start as int, end as int)),
        decreases end,
    {
        assert(chars@.subrange(start as int, end as int).drop_last() =~= chars@.subrange(start as int, end - 1));
        end -= 1;
    }
    let mut r: Vec<char> = Vec::new();
    let mut i = start;
    while i < end
        invariant
            start <= i <= end <= chars@.len(),
            r@ == chars@.subrange(start as int, i as int),
        decreases end - i,
    {
        r.push(chars[i]);
        assert(r@ =~= chars@.subrange(start as int, i + 1));
        i += 1;
    }
    assert(r@ =~= trim(s));
    r
}

/// Where the last `sep` of `s` stands, or -1.
pub open spec fn last_index_of(s: Seq<char>, sep: char) -> int
    decreases s.len(),
{
    if s.len() == 0 {
        -1
    } else if s.last() == sep {
        s.len() - 1
    } else {
        last_index_of(s.drop_last(), sep)
    }
}

/// The last separator, if any, stands inside `s` and is `sep`.
pub proof fn lemma_last_index_bounds(s: Seq<char>, sep: char)
    ensures
        -1 <= last_index_of(s, sep) < s.len(),
        last_index_of(s, sep) >= 0 ==> s[last_index_of(s, sep)] == sep,
    decreases s.len(),
{
    if s.len() > 0 && s.last() != sep {
        lemma_last_index_bounds(s.drop_last(), sep);
    }
}

/// The pieces of `s` between the separators `sep`, as `str::split` gives them:
/// one more piece than there are separators, empty pieces included.
pub open spec fn pieces(s: Seq<char>, sep: char) -> Seq<Seq<char>>
    decreases s.len(),
{
    let k = last_index_of(s, sep);
    if k < 0 {
        seq![s]
    } else {
        proof {
            lemma_last_index_bounds(s, sep);
        }
        pieces(s.take(k), sep).push(s.skip(k + 1))
    }
}

/// The views of a vector of character vectors.
pub open spec fn char_views(v: Seq<Vec<char>>) -> Seq<Seq<char>> {
    v.map_values(|c: Vec<char>| c@)
}

proof fn lemma_pieces_push(s: Seq<char>, sep: char, c: char)
    ensures
        c == sep ==> pieces(s.push(c), sep) == pieces(s, sep).push(seq![]),
        c != sep ==> pieces(s.push(c), sep) == pieces(s, sep).drop_last().push(
            pieces(s, sep).last().push(c),
        ),
        pieces(s, sep).len() > 0,
    decreases s.len(),
{
    let t = s.push(c);
    assert(t.drop_last() =~= s);
    lemma_last_index_bounds(s, sep);
    if c == sep {
        assert(t.take(s.len() as int) =~= s);
        assert(t.skip(s.len() as int + 1) =~= Seq::<char>::empty());
    } else {
        let k = last_index_of(s, sep);
        assert(last_index_of(t, sep) == k);
        if k >= 0 {
            assert(t.take(k) =~= s.take(k));
            assert(t.skip(k + 1) =~= s.skip(k + 1).push(c));
        }
    }
}

/// Splits `chars` at every `sep`.
pub fn split_chars(chars: &Vec<char>, sep: char) -> (r: Vec<Vec<char>>)
    ensures
        char_views(r@) == pieces(chars@, sep),
        r@.len() > 0,
{
    let mut r: Vec<Vec<char>> = Vec::new();
    let mut current: Vec<char> = Vec::new();
    let mut i: usize = 0;
    assert(chars@.take(0) =~= Seq::<char>::empty());
    assert(pieces(Seq::<char>::empty(), sep) =~= seq![Seq::<char>::empty()]);
    while i < chars.len()
        invariant
            i <= chars@.len(),
            char_views(r@).push(current@) == pieces(chars@.take(i as int), sep),
        decreases chars@.len() - i,
    {
        let c = chars[i];
        proof {
            lemma_pieces_push(chars@.take(i as int), sep, c);
            assert(chars@.take(i + 1) =~= chars@.take(i as int).push(c));
        }
        let ghost before = char_views(r@).push(current@);
        if c == sep {
            let done = current;
            r.push(done);
            current = Vec::new();
            assert(char_views(r@) =~= before);
            assert(char_views(r@).push(current@) =~= before.push(seq![]));
        } else {
            current.push(c);
            assert(char_views(r@).push(current@) =~= before.drop_last().push(before.last().push(c)));
        }
        i += 1;
    }
    r.push(current);
    assert(chars@.take(chars@.len() as int) =~= chars@);
    assert(char_views(r@) =~= pieces(chars@, sep));
    r
}

} // verus!
