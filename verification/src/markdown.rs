//! Markdown to HTML, with fenced and indented code blocks syntax-highlighted.
//!
//! `pulldown_cmark` parses and renders; `syntect` highlights. What this module
//! decides itself is how the event stream changes: every code block, from its
//! start to its end, becomes one HTML event holding the highlighted code.

use vstd::prelude::*;
use pulldown_cmark::{html, CodeBlockKind, Event, Options, Parser, Tag, TagEnd};
use syntect::highlighting::ThemeSet;
use syntect::html::highlighted_html_for_string;
use syntect::parsing::SyntaxSet;
use crate::escape::{escape_html, html_escaped};
use crate::text::{chars_of, is_white_space, is_white_space_char, push_char, skip_white_space,
    leading_white_space, string_of, trim_start};

verus! {

broadcast use vstd::string::group_string_axioms;

#[verifier::external_type_specification]
#[verifier::external_body]
pub struct ExEvent<'a>(Event<'a>);

#[verifier::external_type_specification]
#[verifier::external_body]
pub struct ExOptions(Options);

#[verifier::external_type_specification]
#[verifier::external_body]
pub struct ExSyntectError(syntect::Error);

/// The Markdown extensions a parse can turn on.
pub enum Extension {
    Tables,
    Footnotes,
    Strikethrough,
    Tasklists,
    HeadingAttributes,
    SmartPunctuation,
}

/// A Markdown event, as far as code-block highlighting looks into it.
pub enum MdEvent<'a> {
    /// The start of a code block: the info string of a fenced block, none for
    /// an indented one.
    CodeBlockStart(Option<String>),
    CodeBlockEnd,
    Text(String),
    Code(String),
    SoftBreak,
    HardBreak,
    /// HTML to emit as it is.
    Html(String),
    /// Any other event, passed on untouched.
    Other(Event<'a>),
}

/// An event with its strings taken as character sequences.
pub enum MdEventView<'a> {
    CodeBlockStart(Option<Seq<char>>),
    CodeBlockEnd,
    Text(Seq<char>),
    Code(Seq<char>),
    SoftBreak,
    HardBreak,
    Html(Seq<char>),
    Other(Event<'a>),
}

impl<'a> View for MdEvent<'a> {
    type V = MdEventView<'a>;

    open spec fn view(&self) -> MdEventView<'a> {
        match self {
            MdEvent::CodeBlockStart(info) => MdEventView::CodeBlockStart(
                match info {
                    Some(s) => Some(s@),
                    None => None,
                },
            ),
            MdEvent::CodeBlockEnd => MdEventView::CodeBlockEnd,
            MdEvent::Text(s) => MdEventView::Text(s@),
            MdEvent::Code(s) => MdEventView::Code(s@),
            MdEvent::SoftBreak => MdEventView::SoftBreak,
            MdEvent::HardBreak => MdEventView::HardBreak,
            MdEvent::Html(s) => MdEventView::Html(s@),
            MdEvent::Other(e) => MdEventView::Other(*e),
        }
    }
}

/// The views of a sequence of events.
pub open spec fn views<'a>(events: Seq<MdEvent<'a>>) -> Seq<MdEventView<'a>> {
    events.map_values(|e: MdEvent<'a>| e@)
}

/// One of the seven themes `ThemeSet::load_defaults` holds, by the key it
/// has in the set's map.
pub open spec fn is_default_theme(name: Seq<char>) -> bool {
    ||| name == "base16-ocean.dark"@
    ||| name == "base16-eighties.dark"@
    ||| name == "base16-mocha.dark"@
    ||| name == "base16-ocean.light"@
    ||| name == "InspiredGitHub"@
    ||| name == "Solarized (dark)"@
    ||| name == "Solarized (light)"@
}

/// Whether `SyntaxSet::find_syntax_by_token` finds a syntax for `token` among
/// the default syntaxes (`SyntaxSet::load_defaults_newlines`).
pub uninterp spec fn syntect_knows(token: Seq<char>) -> bool;

/// What `highlighted_html_for_string` makes of `code` among the default
/// syntaxes, with the default theme named `theme` and, for `Some(token)`, the
/// syntax that `find_syntax_by_token(token)` finds, for `None` the syntax of
/// `find_syntax_plain_text`: the HTML, or none where it reports an error.
pub uninterp spec fn syntect_html(code: Seq<char>, syntax: Option<Seq<char>>, theme: Seq<char>) -> Option<Seq<char>>;

/// Asks `SyntaxSet::find_syntax_by_token`, over the default syntaxes, whether
/// it finds a syntax for `token`. The claim: the answer is the named one.
#[verifier::external_body]
fn knows_syntax(token: &str) -> (known: bool)
    ensures
        known == syntect_knows(token@),
{
    SyntaxSet::load_defaults_newlines().find_syntax_by_token(token).is_some()
}

/// Highlights `code` with `highlighted_html_for_string`, in the syntax that
/// `find_syntax_by_token` finds for `token` among the default syntaxes (it
/// finds one, by the `requires`) and a default theme. The claim: an `Ok` holds
/// the named result and an error comes exactly where the name has none.
#[verifier::external_body]
fn highlight_in_syntax(code: &str, token: &str, theme: &str) -> (r: Result<String, syntect::Error>)
    requires
        syntect_knows(token@),
        is_default_theme(theme@),
    ensures
        match r {
            Ok(html) => syntect_html(code@, Some(token@), theme@) == Some(html@),
            Err(_) => syntect_html(code@, Some(token@), theme@) is None,
        },
{
    let syntaxes = SyntaxSet::load_defaults_newlines();
    let themes = ThemeSet::load_defaults();
    let syntax = syntaxes.find_syntax_by_token(token).unwrap();
    highlighted_html_for_string(code, &syntaxes, syntax, &themes.themes[theme])
}

/// Highlights `code` with `highlighted_html_for_string`, in the plain-text
/// syntax of the default syntaxes and a default theme. The claim: an `Ok`
/// holds the named result and an error comes exactly where the name has none.
#[verifier::external_body]
fn highlight_plain_text(code: &str, theme: &str) -> (r: Result<String, syntect::Error>)
    requires
        is_default_theme(theme@),
    ensures
        match r {
            Ok(html) => syntect_html(code@, None, theme@) == Some(html@),
            Err(_) => syntect_html(code@, None, theme@) is None,
        },
{
    let syntaxes = SyntaxSet::load_defaults_newlines();
    let themes = ThemeSet::load_defaults();
    let syntax = syntaxes.find_syntax_plain_text();
    highlighted_html_for_string(code, &syntaxes, syntax, &themes.themes[theme])
}

/// The `Options` bit of an extension, as `pulldown_cmark` defines it.
pub open spec fn option_bit(extension: Extension) -> u32 {
    match extension {
        Extension::Tables => 0x2,
        Extension::Footnotes => 0x4,
        Extension::Strikethrough => 0x8,
        Extension::Tasklists => 0x10,
        Extension::SmartPunctuation => 0x20,
        Extension::HeadingAttributes => 0x40,
    }
}

/// The bits of the options that turn on every extension of the list.
pub open spec fn option_bits(extensions: Seq<Extension>) -> u32
    decreases extensions.len(),
{
    if extensions.len() == 0 {
        0
    } else {
        option_bits(extensions.drop_last()) | option_bit(extensions.last())
    }
}

/// The options of a list of extensions turn on the bit of every extension the
/// list holds.
pub proof fn listed_extensions_are_on(extensions: Seq<Extension>, extension: Extension)
    requires
        extensions.contains(extension),
    ensures
        option_bits(extensions) & option_bit(extension) == option_bit(extension),
    decreases extensions.len(),
{
    let bit = option_bit(extension);
    let rest = option_bits(extensions.drop_last());
    let last = option_bit(extensions.last());
    if extensions.last() == extension {
        assert((rest | bit) & bit == bit) by (bit_vector);
    } else {
        let i = choose|i: int| 0 <= i < extensions.len() && extensions[i] == extension;
        assert(extensions.drop_last()[i] == extension);
        listed_extensions_are_on(extensions.drop_last(), extension);
        assert((rest & bit) == bit ==> ((rest | last) & bit) == bit) by (bit_vector);
    }
}

/// Markdown is read with every extension on: tables, footnotes,
/// strikethrough, task lists, heading attributes and smart punctuation.
pub proof fn every_extension_is_on(extension: Extension)
    ensures
        option_bits(site_extensions()) & option_bit(extension) == option_bit(extension),
{
    let all = site_extensions();
    let i: int = match extension {
        Extension::Tables => 0,
        Extension::Footnotes => 1,
        Extension::Strikethrough => 2,
        Extension::Tasklists => 3,
        Extension::HeadingAttributes => 4,
        Extension::SmartPunctuation => 5,
    };
    assert(all[i] == extension);
    listed_extensions_are_on(all, extension);
}

/// The bits of the `pulldown_cmark` options for a list of extensions: each one
/// put in with `Options::insert`, read back with `Options::bits`.
#[verifier::external_body]
fn cmark_options(extensions: &Vec<Extension>) -> (bits: u32)
    ensures
        bits == option_bits(extensions@),
{
    let mut options = Options::empty();
    for extension in extensions {
        options.insert(match extension {
            Extension::Tables => Options::ENABLE_TABLES,
            Extension::Footnotes => Options::ENABLE_FOOTNOTES,
            Extension::Strikethrough => Options::ENABLE_STRIKETHROUGH,
            Extension::Tasklists => Options::ENABLE_TASKLISTS,
            Extension::HeadingAttributes => Options::ENABLE_HEADING_ATTRIBUTES,
            Extension::SmartPunctuation => Options::ENABLE_SMART_PUNCTUATION,
        });
    }
    options.bits()
}

/// The events `pulldown_cmark::Parser::new_ext` yields for `markdown` with the
/// options whose bits are `options`, each taken as an event of this module: a
/// code block's start and end, text, inline code and breaks by what they hold,
/// any other event as it is.
pub uninterp spec fn cmark_events(markdown: Seq<char>, options: u32) -> Seq<MdEventView<'static>>;

/// The HTML that `pulldown_cmark::html::push_html` writes for the events, each
/// turned back into the `pulldown_cmark` event it stands for (an HTML event for
/// `Html`).
pub uninterp spec fn cmark_html(events: Seq<MdEventView<'static>>) -> Seq<char>;

/// Parses `markdown` with `pulldown_cmark::Parser::new_ext` and tells apart the
/// events that code-block highlighting reads. The claim: the events are the
/// named result for these arguments.
#[verifier::external_body]
fn parse_events(markdown: &str, options: u32) -> (events: Vec<MdEvent<'static>>)
    ensures
        views(events@) == cmark_events(markdown@, options),
{
    let mut events = Vec::new();
    for event in Parser::new_ext(markdown, Options::from_bits_truncate(options)) {
        events.push(match event {
            Event::Start(Tag::CodeBlock(CodeBlockKind::Fenced(info))) => MdEvent::CodeBlockStart(Some(info.to_string())),
            Event::Start(Tag::CodeBlock(CodeBlockKind::Indented)) => MdEvent::CodeBlockStart(None),
            Event::End(TagEnd::CodeBlock) => MdEvent::CodeBlockEnd,
            Event::Text(text) => MdEvent::Text(text.to_string()),
            Event::Code(code) => MdEvent::Code(code.to_string()),
            Event::SoftBreak => MdEvent::SoftBreak,
            Event::HardBreak => MdEvent::HardBreak,
            other => MdEvent::Other(other.into_static()),
        });
    }
    events
}

/// Turns the events back into `pulldown_cmark` events and writes their HTML with
/// `pulldown_cmark::html::push_html`. The claim: the HTML is the named result.
#[verifier::external_body]
fn render_events(events: Vec<MdEvent<'static>>) -> (html: String)
    ensures
        html@ == cmark_html(views(events@)),
{
    let mut converted = Vec::new();
    for event in events {
        converted.push(match event {
            MdEvent::CodeBlockStart(Some(info)) => Event::Start(Tag::CodeBlock(CodeBlockKind::Fenced(info.into()))),
            MdEvent::CodeBlockStart(None) => Event::Start(Tag::CodeBlock(CodeBlockKind::Indented)),
            MdEvent::CodeBlockEnd => Event::End(TagEnd::CodeBlock),
            MdEvent::Text(text) => Event::Text(text.into()), MdEvent::Code(code) => Event::Code(code.into()),
            MdEvent::SoftBreak => Event::SoftBreak, MdEvent::HardBreak => Event::HardBreak,
            MdEvent::Html(html) => Event::Html(html.into()),
            MdEvent::Other(other) => other,
        });
    }
    let mut html = String::new();
    html::push_html(&mut html, converted.into_iter());
    html
}

/// The theme code blocks are highlighted with.
pub open spec fn code_theme() -> Seq<char> {
    "base16-ocean.dark"@
}

/// How many characters `s` starts with before its first white space.
pub open spec fn word_len(s: Seq<char>) -> nat
    decreases s.len(),
{
    if s.len() > 0 && !is_white_space(s[0]) {
        1 + word_len(s.drop_first())
    } else {
        0
    }
}

/// The language of a code block: the first white-space separated word of a
/// fenced block's info string, or `text` for an indented block or an info
/// string without words.
pub open spec fn code_language(info: Option<Seq<char>>) -> Seq<char> {
    match info {
        Some(info) => {
            let rest = trim_start(info);
            if rest.len() == 0 {
                "text"@
            } else {
                rest.take(word_len(rest) as int)
            }
        },
        None => "text"@,
    }
}

/// What an event inside a code block adds to its code: its text, or a line
/// break for a soft or hard break, or nothing.
pub open spec fn code_piece<'a>(event: MdEventView<'a>) -> Seq<char> {
    match event {
        MdEventView::Text(text) => text,
        MdEventView::Code(code) => code,
        MdEventView::SoftBreak => seq!['\n'],
        MdEventView::HardBreak => seq!['\n'],
        _ => seq![],
    }
}

/// The code held by `events[from..to]`.
pub open spec fn code_between<'a>(events: Seq<MdEventView<'a>>, from: int, to: int) -> Seq<char>
    decreases to - from,
{
    if to <= from {
        seq![]
    } else {
        code_between(events, from, to - 1) + code_piece(events[to - 1])
    }
}

/// Where the code block that runs from `from` ends: the first code block end at
/// or after `from`, or the end of the events.
pub open spec fn block_end<'a>(events: Seq<MdEventView<'a>>, from: int) -> int
    decreases events.len() - from,
{
    if from >= events.len() {
        events.len() as int
    } else if events[from] is CodeBlockEnd {
        from
    } else {
        block_end(events, from + 1)
    }
}

/// A code block that runs from a position within the events ends no earlier
/// than that position and no later than the end of the events.
pub proof fn lemma_block_end_bounds<'a>(events: Seq<MdEventView<'a>>, from: int)
    requires
        0 <= from,
    ensures
        from <= events.len() ==> from <= block_end(events, from) <= events.len(),
        from > events.len() ==> block_end(events, from) == events.len(),
    decreases events.len() - from,
{
    if from < events.len() && !(events[from] is CodeBlockEnd) {
        lemma_block_end_bounds(events, from + 1);
    }
}

/// The syntax a code block is highlighted in: the one `syntect` finds for its
/// language, or plain text when it finds none.
pub open spec fn code_syntax(language: Seq<char>) -> Option<Seq<char>> {
    if syntect_knows(language) {
        Some(language)
    } else {
        None
    }
}

/// The HTML a code block becomes: `syntect`'s highlighting, or the escaped code
/// in `pre` and `code` elements where `syntect` reports an error.
pub open spec fn rendered_block(code: Seq<char>, language: Seq<char>) -> Seq<char> {
    match syntect_html(code, code_syntax(language), code_theme()) {
        Some(html) => html,
        None => "<pre><code>"@ + html_escaped(code) + "</code></pre>"@,
    }
}

/// The events from `from` on with every code block, from its start through its
/// end, replaced by one HTML event of the rendered block.
pub open spec fn highlighted_from<'a>(events: Seq<MdEventView<'a>>, from: int) -> Seq<
    MdEventView<'a>,
>
    decreases events.len() + 1 - from,
{
    if from < 0 || from >= events.len() {
        seq![]
    } else {
        match events[from] {
            MdEventView::CodeBlockStart(info) => {
                proof {
                    lemma_block_end_bounds(events, from + 1);
                }
                let end = block_end(events, from + 1);
                seq![
                    MdEventView::Html(
                        rendered_block(code_between(events, from + 1, end), code_language(info)),
                    ),
                ] + highlighted_from(events, end + 1)
            },
            _ => seq![events[from]] + highlighted_from(events, from + 1),
        }
    }
}

/// All events with their code blocks highlighted.
pub open spec fn highlighted<'a>(events: Seq<MdEventView<'a>>) -> Seq<MdEventView<'a>> {
    highlighted_from(events, 0)
}

proof fn lemma_word_len(s: Seq<char>)
    ensures
        word_len(s) <= s.len(),
        forall|i: int| 0 <= i < word_len(s) ==> !is_white_space(#[trigger] s[i]),
        word_len(s) < s.len() ==> is_white_space(s[word_len(s) as int]),
    decreases s.len(),
{
    if s.len() > 0 && !is_white_space(s[0]) {
        lemma_word_len(s.drop_first());
        assert forall|i: int| 0 <= i < word_len(s) implies !is_white_space(#[trigger] s[i]) by {
            if i > 0 {
                assert(s[i] == s.drop_first()[i - 1]);
            }
        }
        if word_len(s) < s.len() {
            assert(s[word_len(s) as int] == s.drop_first()[word_len(s.drop_first()) as int]);
        }
    }
}

proof fn lemma_leading_white_space(s: Seq<char>)
    ensures
        leading_white_space(s) <= s.len(),
        leading_white_space(s) < s.len() ==> !is_white_space(s[leading_white_space(s) as int]),
    decreases s.len(),
{
    if s.len() > 0 && is_white_space(s[0]) {
        lemma_leading_white_space(s.drop_first());
        if leading_white_space(s) < s.len() {
            assert(s[leading_white_space(s) as int] == s.drop_first()[leading_white_space(s.drop_first()) as int]);
        }
    }
}

/// A fenced block is highlighted in the first word of its info string: the
/// language is a non-empty run of characters that are not white space,
/// standing at the front of the info string once its leading white space is
/// gone, and ending where that string ends or white space follows. An
/// indented block, or an info string of white space only, is `text`.
pub proof fn language_is_first_word(info: Option<Seq<char>>)
    ensures
        match info {
            Some(text) if trim_start(text).len() > 0 => {
                let rest = trim_start(text);
                let language = code_language(info);
                &&& 0 < language.len() <= rest.len()
                &&& language == rest.take(language.len() as int)
                &&& forall|i: int| 0 <= i < language.len() ==> !is_white_space(#[trigger] language[i])
                &&& language.len() == rest.len() || is_white_space(rest[language.len() as int])
            },
            _ => code_language(info) == "text"@,
        },
{
    if let Some(text) = info {
        let rest = trim_start(text);
        if rest.len() > 0 {
            lemma_leading_white_space(text);
            lemma_word_len(rest);
            assert(rest[0] == text[leading_white_space(text) as int]);
            assert(word_len(rest) > 0);
            let language = code_language(info);
            assert(language == rest.take(word_len(rest) as int));
            assert forall|i: int| 0 <= i < language.len() implies !is_white_space(#[trigger] language[i]) by {
                assert(language[i] == rest[i]);
            }
        }
    }
}

fn language_of(info: &Option<String>) -> (language: String)
    ensures
        language@ == code_language(
            match info {
                Some(s) => Some(s@),
                None => None,
            },
        ),
{
    match info {
        Some(text) => {
            let chars = chars_of(text.as_str());
            let start = skip_white_space(&chars, 0);
            assert(chars@.skip(0) =~= chars@);
            if start == chars.len() {
                return "text".to_owned();
            }
            let mut end = start;
            while end < chars.len() && !is_white_space_char(chars[end])
                invariant
                    start <= end <= chars@.len(),
                    word_len(chars@.skip(start as int)) == (end - start) + word_len(
                        chars@.skip(end as int),
                    ),
                decreases chars@.len() - end,
            {
                assert(chars@.skip(end as int).drop_first() =~= chars@.skip(end + 1));
                end += 1;
            }
            assert(trim_start(chars@) =~= chars@.skip(start as int));
            assert(chars@.subrange(start as int, end as int) =~= chars@.skip(start as int).take(
                (end - start) as int,
            ));
            string_of(&chars, start, end)
        },
        None => "text".to_owned(),
    }
}

fn render_block(code: &String, language: &String) -> (html: String)
    ensures
        html@ == rendered_block(code@, language@),
{
    let highlighted = if knows_syntax(language.as_str()) {
        highlight_in_syntax(code.as_str(), language.as_str(), "base16-ocean.dark")
    } else {
        highlight_plain_text(code.as_str(), "base16-ocean.dark")
    };
    match highlighted {
        Ok(html) => html,
        Err(_) => {
            let mut html = "<pre><code>".to_owned();
            html.append(escape_html(code.as_str()).as_str());
            html.append("</code></pre>");
            html
        },
    }
}

fn push_piece(code: &mut String, text: &str)
    ensures
        final(code)@ == old(code)@ + text@,
{
    code.append(text);
}

/// Replaces every code block, from its start through its end, by one HTML event
/// holding the highlighted code; every other event passes through in order.
pub fn highlight_code_blocks<'a>(events: Vec<MdEvent<'a>>) -> (out: Vec<MdEvent<'a>>)
    ensures
        views(out@) == highlighted(views(events@)),
{
    let ghost evs = views(events@);
    let mut out: Vec<MdEvent<'a>> = Vec::new();
    let mut block: Option<(String, String)> = None;
    let ghost mut start: int = 0;
    for event in it: events
        invariant
            evs == views(it.seq()),
            match block {
                None => highlighted(evs) == views(out@) + highlighted_from(evs, it.index() as int),
                Some((language, code)) => {
                    &&& 0 <= start < it.index()
                    &&& evs[start] matches MdEventView::CodeBlockStart(info)
                        && language@ == code_language(info)
                    &&& code@ == code_between(evs, start + 1, it.index() as int)
                    &&& block_end(evs, start + 1) == block_end(evs, it.index() as int)
                    &&& highlighted(evs) == views(out@) + highlighted_from(evs, start)
                },
            },
    {
        let ghost index = it.index() as int;
        let ghost before = views(out@);
        assert(evs[index] == event@);
        match block {
            None => {
                match event {
                    MdEvent::CodeBlockStart(info) => {
                        let language = language_of(&info);
                        block = Some((language, String::new()));
                        proof {
                            start = index;
                        }
                    },
                    other => {
                        out.push(other);
                        assert(views(out@) =~= before + seq![evs[index]]);
                        assert(highlighted_from(evs, index) == seq![evs[index]] + highlighted_from(evs, index + 1));
                        assert(highlighted(evs) =~= views(out@) + highlighted_from(evs, index + 1));
                    },
                }
            },
            Some((language, mut code)) => {
                match event {
                    MdEvent::CodeBlockEnd => {
                        let html = render_block(&code, &language);
                        out.push(MdEvent::Html(html));
                        block = None;
                        proof {
                            lemma_block_end_bounds(evs, start + 1);
                            assert(views(out@) =~= before + seq![MdEventView::Html(html@)]);
                            assert(highlighted(evs) =~= views(out@) + highlighted_from(evs, index + 1));
                        }
                    },
                    other => {
                        match other {
                            MdEvent::Text(text) => push_piece(&mut code, text.as_str()),
                            MdEvent::Code(text) => push_piece(&mut code, text.as_str()),
                            MdEvent::SoftBreak => push_char(&mut code, '\n'),
                            MdEvent::HardBreak => push_char(&mut code, '\n'),
                            _ => {},
                        }
                        assert(code@ =~= code_between(evs, start + 1, index + 1));
                        block = Some((language, code));
                    },
                }
            },
        }
    }
    match block {
        Some((language, code)) => {
            let html = render_block(&code, &language);
            let ghost before = views(out@);
            out.push(MdEvent::Html(html));
            proof {
                lemma_block_end_bounds(evs, start + 1);
                let n = evs.len() as int;
                assert(block_end(evs, n) == n);
                assert(block_end(evs, start + 1) == n);
                assert(highlighted_from(evs, n + 1) =~= Seq::<MdEventView<'a>>::empty());
                assert(views(out@) =~= before + seq![MdEventView::Html(html@)]);
                assert(highlighted(evs) =~= views(out@));
            }
        },
        None => {
            assert(highlighted(evs) =~= views(out@));
        },
    }
    out
}

/// Without a code block nothing changes.
pub proof fn no_code_block_no_change<'a>(events: Seq<MdEventView<'a>>)
    requires
        forall|i: int| 0 <= i < events.len() ==> !(#[trigger] events[i] is CodeBlockStart),
    ensures
        highlighted(events) == events,
{
    lemma_unchanged_from(events, 0);
    assert(events.skip(0) =~= events);
}

proof fn lemma_unchanged_from<'a>(events: Seq<MdEventView<'a>>, from: int)
    requires
        0 <= from <= events.len(),
        forall|i: int| 0 <= i < events.len() ==> !(#[trigger] events[i] is CodeBlockStart),
    ensures
        highlighted_from(events, from) == events.skip(from),
    decreases events.len() - from,
{
    if from < events.len() {
        lemma_unchanged_from(events, from + 1);
        assert(!(events[from] is CodeBlockStart));
        assert(events.skip(from) =~= seq![events[from]] + events.skip(from + 1));
    } else {
        assert(events.skip(from) =~= Seq::<MdEventView<'a>>::empty());
    }
}

/// The extensions Markdown is read with.
pub open spec fn site_extensions() -> Seq<Extension> {
    seq![
        Extension::Tables,
        Extension::Footnotes,
        Extension::Strikethrough,
        Extension::Tasklists,
        Extension::HeadingAttributes,
        Extension::SmartPunctuation,
    ]
}

/// The HTML of `markdown`: its events, with the site's extensions, every code
/// block highlighted, written out as HTML.
pub open spec fn rendered_markdown(markdown: Seq<char>) -> Seq<char> {
    cmark_html(highlighted(cmark_events(markdown, option_bits(site_extensions()))))
}

/// Renders Markdown to HTML, with tables, footnotes, strikethrough, task lists,
/// heading attributes and smart punctuation, and with every code block
/// highlighted by `syntect`.
pub fn markdown_to_html(markdown: &str) -> (html: String)
    ensures
        html@ == rendered_markdown(markdown@),
{
    let extensions = vec![
        Extension::Tables,
        Extension::Footnotes,
        Extension::Strikethrough,
        Extension::Tasklists,
        Extension::HeadingAttributes,
        Extension::SmartPunctuation,
    ];
    assert(extensions@ =~= site_extensions());
    let options = cmark_options(&extensions);
    let events = parse_events(markdown, options);
    let highlighted = highlight_code_blocks(events);
    render_events(highlighted)
}

} // verus!
