//! Splitting a content file into its JSON frontmatter and its Markdown body.
//!
//! A content file opens with a line `---`, holds the frontmatter, and closes it
//! with another line `---`; the body follows. A fence line may end in any run of
//! `\r` and `\n`.

use vstd::prelude::*;
use crate::error::SiteError;
use crate::text::{chars_of, skip_white_space, string_of, trim_start};

verus! {

broadcast use vstd::string::group_string_axioms;

/// The end (exclusive) of the line that starts at `start`: just past the next
/// `\n`, or the end of `s`.
pub open spec fn line_end(s: Seq<char>, start: int) -> int
    decreases s.len() - start,
{
    if start >= s.len() {
        s.len() as int
    } else if s[start] == '\n' {
        start + 1
    } else {
        line_end(s, start + 1)
    }
}

/// How many `\r` and `\n` end `line`.
pub open spec fn trailing_newlines(line: Seq<char>) -> nat
    decreases line.len(),
{
    if line.len() > 0 && (line.last() == '\r' || line.last() == '\n') {
        1 + trailing_newlines(line.drop_last())
    } else {
        0
    }
}

/// A fence line: `---` once trailing `\r` and `\n` are removed.
pub open spec fn is_fence(line: Seq<char>) -> bool {
    line.take(line.len() - trailing_newlines(line)) == seq!['-', '-', '-']
}

/// A line that starts before the end of `s` ends after its start and no later
/// than the end of `s`.
pub proof fn lemma_line_end_bounds(s: Seq<char>, start: int)
    requires
        0 <= start,
    ensures
        start < s.len() ==> start < line_end(s, start) <= s.len(),
        start >= s.len() ==> line_end(s, start) == s.len(),
    decreases s.len() - start,
{
    if start < s.len() && s[start] != '\n' {
        lemma_line_end_bounds(s, start + 1);
    }
}

/// The start of the first fence line at or after the line start `start`.
pub open spec fn closing_fence(s: Seq<char>, start: int) -> Option<int>
    decreases s.len() - start,
{
    if start < 0 || start >= s.len() {
        None
    } else {
        let end = line_end(s, start);
        if is_fence(s.subrange(start, end)) {
            Some(start)
        } else {
            proof {
                lemma_line_end_bounds(s, start);
            }
            closing_fence(s, end)
        }
    }
}

/// The message for an empty content file.
pub open spec fn empty_message() -> Seq<char> {
    "content is empty"@
}

/// The message for a content file whose first line is no fence.
pub open spec fn no_opening_message() -> Seq<char> {
    "content must start with a frontmatter fence"@
}

/// The message for a frontmatter that no fence line closes.
pub open spec fn no_closing_message() -> Seq<char> {
    "frontmatter is missing its closing fence"@
}

/// How `content` splits: the frontmatter between the opening fence line and the
/// first closing fence line, and the body after it with leading white space
/// removed; or the message of the error.
pub open spec fn split(content: Seq<char>) -> Result<(Seq<char>, Seq<char>), Seq<char>> {
    if content.len() == 0 {
        Err(empty_message())
    } else {
        let first_end = line_end(content, 0);
        if !is_fence(content.subrange(0, first_end)) {
            Err(no_opening_message())
        } else {
            match closing_fence(content, first_end) {
                Some(start) => Ok(
                    (
                        content.subrange(first_end, start),
                        trim_start(content.skip(line_end(content, start))),
                    ),
                ),
                None => Err(no_closing_message()),
            }
        }
    }
}

/// What a `split_frontmatter` result is, as sequences of characters.
pub open spec fn split_view(r: Result<(String, String), SiteError>) -> Result<
    (Seq<char>, Seq<char>),
    Seq<char>,
> {
    match r {
        Ok((frontmatter, body)) => Ok((frontmatter@, body@)),
        Err(e) => Err(e@),
    }
}

fn find_line_end(chars: &Vec<char>, start: usize) -> (end: usize)
    requires
        start <= chars@.len(),
    ensures
        end == line_end(chars@, start as int),
        start < chars@.len() ==> start < end,
        end <= chars@.len(),
{
    proof {
        lemma_line_end_bounds(chars@, start as int);
    }
    let mut i = start;
    while i < chars.len() && chars[i] != '\n'
        invariant
            start <= i <= chars@.len(),
            line_end(chars@, start as int) == line_end(chars@, i as int),
        decreases chars@.len() - i,
    {
        i += 1;
    }
    if i < chars.len() {
        i + 1
    } else {
        i
    }
}

fn is_fence_line(chars: &Vec<char>, start: usize, end: usize) -> (b: bool)
    requires
        start <= end <= chars@.len(),
    ensures
        b == is_fence(chars@.subrange(start as int, end as int)),
{
    let ghost line = chars@.subrange(start as int, end as int);
    let mut stop = end;
    while stop > start && (chars[stop - 1] == '\r' || chars[stop - 1] == '\n')
        invariant
            start <= stop <= end <= chars@.len(),
            trailing_newlines(line) == (end - stop) + trailing_newlines(
                chars@.subrange(start as int, stop as int),
            ),
        decreases stop,
    {
        assert(chars@.subrange(start as int, stop as int).drop_last() =~= chars@.subrange(
            start as int,
            stop - 1,
        ));
        stop -= 1;
    }
    assert(line.take(line.len() - trailing_newlines(line)) =~= chars@.subrange(
        start as int,
        stop as int,
    ));
    let b = stop - start == 3 && chars[start] == '-' && chars[start + 1] == '-' && chars[start + 2]
        == '-';
    assert(b ==> chars@.subrange(start as int, stop as int) =~= seq!['-', '-', '-']);
    b
}

/// Splits a content file into its frontmatter and its body.
pub fn split_frontmatter(content: &str) -> (r: Result<(String, String), SiteError>)
    ensures
        split_view(r) == split(content@),
{
    let chars = chars_of(content);
    let n = chars.len();
    if n == 0 {
        return Err(SiteError::new("content is empty".to_owned()));
    }
    let first_end = find_line_end(&chars, 0);
    if !is_fence_line(&chars, 0, first_end) {
        return Err(SiteError::new("content must start with a frontmatter fence".to_owned()));
    }
    let mut start = first_end;
    while start < n
        invariant
            n == chars@.len() == content@.len(),
            chars@ == content@,
            first_end <= start <= n,
            first_end == line_end(content@, 0),
            is_fence(content@.subrange(0, first_end as int)),
            closing_fence(content@, first_end as int) == closing_fence(content@, start as int),
        decreases n - start,
    {
        let end = find_line_end(&chars, start);
        if is_fence_line(&chars, start, end) {
            let frontmatter = string_of(&chars, first_end, start);
            let body_start = skip_white_space(&chars, end);
            let body = string_of(&chars, body_start, n);
            assert(chars@.subrange(body_start as int, n as int) =~= trim_start(
                chars@.skip(end as int),
            ));
            return Ok((frontmatter, body));
        }
        start = end;
    }
    Err(SiteError::new("frontmatter is missing its closing fence".to_owned()))
}

/// The fence line `---` ended by a newline.
pub open spec fn fence_line() -> Seq<char> {
    seq!['-', '-', '-', '\n']
}

proof fn lemma_fence_line_at(s: Seq<char>, p: int)
    requires
        0 <= p,
        p + 4 <= s.len(),
        s.subrange(p, p + 4) == fence_line(),
    ensures
        line_end(s, p) == p + 4,
        is_fence(s.subrange(p, p + 4)),
{
    assert(s[p] == fence_line()[0]);
    assert(s[p + 1] == fence_line()[1]);
    assert(s[p + 2] == fence_line()[2]);
    assert(s[p + 3] == fence_line()[3]);
    assert(line_end(s, p + 3) == p + 4);
    assert(line_end(s, p + 2) == p + 4);
    assert(line_end(s, p + 1) == p + 4);
    let line = s.subrange(p, p + 4);
    assert(line.drop_last() =~= seq!['-', '-', '-']);
    assert(trailing_newlines(seq!['-', '-', '-']) == 0);
    assert(trailing_newlines(line) == 1);
    assert(line.take(3) =~= seq!['-', '-', '-']);
}

proof fn lemma_line_end_inside(s: Seq<char>, p: int, inner: Seq<char>, j: int)
    requires
        0 <= p,
        0 <= j < inner.len(),
        inner.last() == '\n',
        p + inner.len() <= s.len(),
        s.subrange(p, p + inner.len()) == inner,
    ensures
        line_end(s, p + j) == p + line_end(inner, j),
        line_end(inner, j) <= inner.len(),
    decreases inner.len() - j,
{
    assert(s[p + j] == inner[j]);
    if inner[j] != '\n' {
        lemma_line_end_inside(s, p, inner, j + 1);
    }
}

proof fn lemma_no_fence_inside(s: Seq<char>, p: int, inner: Seq<char>, j: int)
    requires
        0 <= p,
        0 <= j <= inner.len(),
        inner.len() == 0 || inner.last() == '\n',
        p + inner.len() <= s.len(),
        s.subrange(p, p + inner.len()) == inner,
        closing_fence(inner, j) is None,
    ensures
        closing_fence(s, p + j) == closing_fence(s, p + inner.len()),
    decreases inner.len() - j,
{
    if j < inner.len() {
        lemma_line_end_inside(s, p, inner, j);
        lemma_line_end_bounds(inner, j);
        let end = line_end(inner, j);
        assert(s.subrange(p + j, p + end) =~= inner.subrange(j, end));
        lemma_line_end_bounds(s, p + j);
        lemma_no_fence_inside(s, p, inner, end);
    }
}

/// The file format round-trips: an opening fence line, a frontmatter that is
/// empty or ends with a newline and holds no fence line of its own, a closing
/// fence line and a body split back into that frontmatter and the body without
/// its leading white space.
pub proof fn framing_round_trips(frontmatter: Seq<char>, body: Seq<char>)
    requires
        frontmatter.len() == 0 || frontmatter.last() == '\n',
        closing_fence(frontmatter, 0) is None,
    ensures
        split(fence_line() + frontmatter + fence_line() + body) == Ok::<(Seq<char>, Seq<char>), Seq<char>>((frontmatter, trim_start(body))),
{
    let s = fence_line() + frontmatter + fence_line() + body;
    let m = frontmatter.len() as int;
    assert(s.subrange(0, 4) =~= fence_line());
    lemma_fence_line_at(s, 0);
    assert(s.subrange(4, 4 + m) =~= frontmatter);
    lemma_no_fence_inside(s, 4, frontmatter, 0);
    assert(s.subrange(4 + m, 8 + m) =~= fence_line());
    lemma_fence_line_at(s, 4 + m);
    assert(s.skip(8 + m) =~= body);
}

} // verus!
