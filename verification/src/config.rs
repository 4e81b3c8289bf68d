//! The part of a system's resolver configuration that the resolver goes by.
use vstd::prelude::*;
use vstd::string::*;

use crate::hostname::Hostname;
use crate::text::{append_decimal, decimal, from_utf8_lossy, lossy_text, parse_as_str, parse_u8};

verus! {

/// An error that occurred while reading a system DNS configuration.
#[derive(Debug)]
pub enum ConfigError {
    NotFound { path: String },
    /// A line that makes no sense; lines are counted from 0.
    Invalid { path: String, line: usize, message: String },
    /// The configuration could not be read; what the system had to say about it.
    Other { message: String },
}

/// An extremely simple subset of a system DNS resolver configuration.
#[derive(Debug, PartialEq, Eq)]
pub struct SystemConfig {
    pub ndots: u8,
    pub search: Vec<Hostname>,
}

/// Why a file could not be read.
#[derive(Debug)]
pub enum ReadError {
    NotFound,
    Other { message: String },
}

/// The contents of a [`SystemConfig`].
#[verifier::ext_equal]
pub struct ConfigView {
    pub ndots: u8,
    pub search: Seq<Seq<char>>,
}

/// The texts of a list of hostnames.
pub open spec fn names_view(names: Seq<Hostname>) -> Seq<Seq<char>> {
    names.map_values(|name: Hostname| name@)
}

impl View for SystemConfig {
    type V = ConfigView;

    open spec fn view(&self) -> ConfigView {
        ConfigView { ndots: self.ndots, search: names_view(self.search@) }
    }
}

/// What becomes of a word that should be a hostname: the name, or what is wrong with it.
pub type Verdict = Result<Seq<char>, Seq<char>>;

pub open spec fn verdict_view(verdict: Result<Hostname, String>) -> Verdict {
    match verdict {
        Ok(name) => Ok(name@),
        Err(error) => Err(error@),
    }
}

/// `rule` says of every word what `verdict` says of it.
pub open spec fn decides<F: Fn(&[u8]) -> Result<Hostname, String>>(
    rule: F,
    verdict: spec_fn(Seq<u8>) -> Verdict,
) -> bool {
    forall|word: &[u8], answer: Result<Hostname, String>| #[trigger]
        call_ensures(rule, (word,), answer) ==> verdict_view(answer) == verdict(word@)
}

/// Whether any of these lines has a word that should be a hostname.
pub open spec fn asks_for_names(lines: Seq<Seq<u8>>) -> bool {
    exists|i: int|
        0 <= i < lines.len() && (directive(#[trigger] lines[i]) matches Directive::Search(words)
            && words.len() > 0)
}

/// `verdict` is what `rule` says, as far as `content` asks for it.
pub open spec fn governs<F: Fn(&[u8]) -> Result<Hostname, String>>(
    rule: F,
    verdict: spec_fn(Seq<u8>) -> Verdict,
    content: Seq<u8>,
) -> bool {
    decides(rule, verdict) || !asks_for_names(split(content, Separator::Newline))
}

/// What separates the pieces of a text.
#[derive(Clone, Copy)]
pub enum Separator {
    Newline,
    Whitespace,
}

/// Space, tab, line feed, form feed and carriage return.
pub open spec fn is_whitespace(b: u8) -> bool {
    b == ' ' as u8 || b == '\t' as u8 || b == '\n' as u8 || b == '\u{c}' as u8 || b == '\r' as u8
}

impl Separator {
    pub open spec fn separates(self, b: u8) -> bool {
        match self {
            Separator::Newline => b == '\n' as u8,
            Separator::Whitespace => is_whitespace(b),
        }
    }

    fn is_separator(&self, b: u8) -> (yes: bool)
        ensures
            yes == self.separates(b),
    {
        match self {
            Separator::Newline => b == '\n' as u8,
            Separator::Whitespace => is_ascii_whitespace(b),
        }
    }
}

fn is_ascii_whitespace(b: u8) -> (yes: bool)
    ensures
        yes == is_whitespace(b),
{
    b == ' ' as u8 || b == '\t' as u8 || b == '\n' as u8 || b == '\u{c}' as u8 || b == '\r' as u8
}

/// The pieces of a text between its separators: one more than there are separators, and
/// empty where two of them meet.
pub open spec fn split(text: Seq<u8>, sep: Separator) -> Seq<Seq<u8>>
    decreases text.len(),
{
    if text.len() == 0 {
        seq![Seq::empty()]
    } else {
        let pieces = split(text.drop_last(), sep);
        if sep.separates(text.last()) {
            pieces.push(Seq::empty())
        } else {
            pieces.drop_last().push(pieces.last().push(text.last()))
        }
    }
}

/// The text without whitespace in front.
pub open spec fn trim_start(text: Seq<u8>) -> Seq<u8>
    decreases text.len(),
{
    if text.len() > 0 && is_whitespace(text.first()) {
        trim_start(text.drop_first())
    } else {
        text
    }
}

/// The text without whitespace behind.
pub open spec fn trim_end(text: Seq<u8>) -> Seq<u8>
    decreases text.len(),
{
    if text.len() > 0 && is_whitespace(text.last()) {
        trim_end(text.drop_last())
    } else {
        text
    }
}

/// `options`
pub open spec fn options_word() -> Seq<u8> {
    seq!['o' as u8, 'p' as u8, 't' as u8, 'i' as u8, 'o' as u8, 'n' as u8, 's' as u8]
}

/// `search`
pub open spec fn search_word() -> Seq<u8> {
    seq!['s' as u8, 'e' as u8, 'a' as u8, 'r' as u8, 'c' as u8, 'h' as u8]
}

/// `ndots:`
pub open spec fn ndots_prefix() -> Seq<u8> {
    seq!['n' as u8, 'd' as u8, 'o' as u8, 't' as u8, 's' as u8, ':' as u8]
}

/// What a line asks for.
#[verifier::ext_equal]
pub enum Directive {
    /// Nothing that matters here: the line is empty, a comment, or another directive.
    Ignored,
    Options(Seq<Seq<u8>>),
    Search(Seq<Seq<u8>>),
}

pub open spec fn directive(line: Seq<u8>) -> Directive {
    let text = trim_end(trim_start(line));
    if text.len() == 0 || text[0] == ';' as u8 || text[0] == '#' as u8 {
        Directive::Ignored
    } else {
        let words = split(text, Separator::Whitespace);
        if words[0] == options_word() {
            Directive::Options(words.skip(1))
        } else if words[0] == search_word() {
            Directive::Search(words.skip(1))
        } else {
            Directive::Ignored
        }
    }
}

/// What an option has to say about `ndots`: the text of the number.
pub open spec fn ndots_text(option: Seq<u8>) -> Option<Seq<u8>> {
    if option.len() >= 6 && option.take(6) == ndots_prefix() {
        Some(option.skip(6))
    } else {
        None
    }
}

/// The value of `ndots` after these options, the last one counting, or the first text that
/// is no number.
pub open spec fn ndots_after(options: Seq<Seq<u8>>, ndots: u8) -> Result<u8, Seq<u8>>
    decreases options.len(),
{
    if options.len() == 0 {
        Ok(ndots)
    } else {
        match ndots_after(options.drop_last(), ndots) {
            Err(text) => Err(text),
            Ok(n) => match ndots_text(options.last()) {
                None => Ok(n),
                Some(text) => match parse_u8(text) {
                    Some(value) => Ok(value),
                    None => Err(text),
                },
            },
        }
    }
}

/// The hostnames that these words are, or what is wrong with the first that is none.
pub open spec fn hostnames(
    words: Seq<Seq<u8>>,
    verdict: spec_fn(Seq<u8>) -> Verdict,
) -> Result<Seq<Seq<char>>, Seq<char>>
    decreases words.len(),
{
    if words.len() == 0 {
        Ok(Seq::empty())
    } else {
        match hostnames(words.drop_last(), verdict) {
            Err(error) => Err(error),
            Ok(names) => match verdict(words.last()) {
                Ok(name) => Ok(names.push(name)),
                Err(error) => Err(error),
            },
        }
    }
}

/// What is said of a number of dots that is none.
pub open spec fn ndots_message(text: Seq<char>) -> Seq<char> {
    "invalid ndots: '"@ + text + "'"@
}

/// What is said of a search path with a word in it that is no hostname.
pub open spec fn search_message(error: Seq<char>) -> Seq<char> {
    "search path contains invalid hostname: "@ + error
}

/// The configuration after one more line, or what is wrong with that line.
pub open spec fn config_after(
    config: ConfigView,
    line: Seq<u8>,
    verdict: spec_fn(Seq<u8>) -> Verdict,
) -> Result<ConfigView, Seq<char>> {
    match directive(line) {
        Directive::Ignored => Ok(config),
        Directive::Options(options) => match ndots_after(options, config.ndots) {
            Ok(ndots) => Ok(ConfigView { ndots, ..config }),
            Err(text) => Err(ndots_message(lossy_text(text))),
        },
        Directive::Search(words) => match hostnames(words, verdict) {
            Ok(search) => Ok(ConfigView { search, ..config }),
            Err(error) => Err(search_message(error)),
        },
    }
}

/// The configuration that these lines describe, or the first line that makes no sense, with
/// what is wrong with it.
pub open spec fn config_of(
    lines: Seq<Seq<u8>>,
    verdict: spec_fn(Seq<u8>) -> Verdict,
) -> Result<ConfigView, (int, Seq<char>)>
    decreases lines.len(),
{
    if lines.len() == 0 {
        Ok(ConfigView { ndots: 1, search: Seq::empty() })
    } else {
        match config_of(lines.drop_last(), verdict) {
            Err(error) => Err(error),
            Ok(config) => match config_after(config, lines.last(), verdict) {
                Ok(config) => Ok(config),
                Err(message) => Err((lines.len() - 1, message)),
            },
        }
    }
}

/// `parsed` is what reading `content`, which came from `path`, has to give.
pub open spec fn parses_to(
    parsed: Result<SystemConfig, ConfigError>,
    path: Seq<char>,
    content: Seq<u8>,
    verdict: spec_fn(Seq<u8>) -> Verdict,
) -> bool {
    match config_of(split(content, Separator::Newline), verdict) {
        Ok(config) => parsed matches Ok(parsed) && parsed@ == config,
        Err((line, message)) => {
            &&& parsed matches Err(ConfigError::Invalid { path: p, line: l, message: m })
            &&& p@ == path
            &&& l == line
            &&& m@ == message
        },
    }
}

/// The texts of a list of slices.
pub open spec fn pieces_view(pieces: Seq<&[u8]>) -> Seq<Seq<u8>> {
    pieces.map_values(|piece: &[u8]| piece@)
}

/// Cuts a text at its separators.
fn split_bytes(text: &[u8], sep: Separator) -> (pieces: Vec<&[u8]>)
    ensures
        pieces_view(pieces@) == split(text@, sep),
        pieces@.len() > 0,
{
    let mut pieces: Vec<&[u8]> = Vec::new();
    let mut start: usize = 0;
    let mut i: usize = 0;
    assert(text@.take(0) =~= Seq::<u8>::empty());
    assert(text@.subrange(0, 0) =~= Seq::<u8>::empty());
    assert(pieces_view(pieces@).push(text@.subrange(0, 0)) =~= split(text@.take(0), sep));
    while i < text.len()
        invariant
            start <= i <= text@.len(),
            pieces_view(pieces@).push(text@.subrange(start as int, i as int)) == split(
                text@.take(i as int),
                sep,
            ),
        decreases text@.len() - i,
    {
        let ghost before = pieces_view(pieces@);
        let ghost piece = text@.subrange(start as int, i as int);
        proof {
            assert(text@.take(i as int + 1).drop_last() =~= text@.take(i as int));
            assert(text@.take(i as int + 1).last() == text@[i as int]);
            assert(before.push(piece).drop_last() =~= before);
        }
        if sep.is_separator(text[i]) {
            pieces.push(vstd::slice::slice_subrange(text, start, i));
            start = i + 1;
            proof {
                assert(pieces_view(pieces@) =~= before.push(piece));
                assert(text@.subrange(start as int, i as int + 1) =~= Seq::<u8>::empty());
            }
        } else {
            assert(text@.subrange(start as int, i as int + 1) =~= piece.push(text@[i as int]));
        }
        i = i + 1;
    }
    let ghost before = pieces_view(pieces@);
    pieces.push(vstd::slice::slice_subrange(text, start, i));
    proof {
        assert(text@.take(i as int) =~= text@);
        assert(pieces_view(pieces@) =~= before.push(text@.subrange(start as int, i as int)));
    }
    pieces
}

/// The text without whitespace in front and behind.
fn trim_ascii(text: &[u8]) -> (trimmed: &[u8])
    ensures
        trimmed@ == trim_end(trim_start(text@)),
{
    let mut start: usize = 0;
    assert(text@.skip(0) =~= text@);
    while start < text.len() && is_ascii_whitespace(text[start])
        invariant
            start <= text@.len(),
            trim_start(text@) == trim_start(text@.skip(start as int)),
        decreases text@.len() - start,
    {
        assert(text@.skip(start as int).drop_first() =~= text@.skip(start as int + 1));
        start = start + 1;
    }
    let ghost rest = text@.skip(start as int);
    assert(trim_start(text@) == rest);
    let mut end: usize = text.len();
    assert(text@.subrange(start as int, end as int) =~= rest);
    while end > start && is_ascii_whitespace(text[end - 1])
        invariant
            start <= end <= text@.len(),
            trim_end(rest) == trim_end(text@.subrange(start as int, end as int)),
        decreases end,
    {
        proof {
            let now = text@.subrange(start as int, end as int);
            assert(now.last() == text@[end - 1]);
            assert(now.drop_last() =~= text@.subrange(start as int, end - 1));
        }
        end = end - 1;
    }
    proof {
        let now = text@.subrange(start as int, end as int);
        if now.len() > 0 {
            assert(now.last() == text@[end - 1]);
        }
    }
    vstd::slice::slice_subrange(text, start, end)
}

fn is_options(word: &[u8]) -> (yes: bool)
    ensures
        yes == (word@ == options_word()),
{
    let yes = word.len() == 7 && word[0] == 'o' as u8 && word[1] == 'p' as u8 && word[2]
        == 't' as u8 && word[3] == 'i' as u8 && word[4] == 'o' as u8 && word[5] == 'n' as u8
        && word[6] == 's' as u8;
    proof {
        if yes {
            assert(word@ =~= options_word());
        }
    }
    yes
}

fn is_search(word: &[u8]) -> (yes: bool)
    ensures
        yes == (word@ == search_word()),
{
    let yes = word.len() == 6 && word[0] == 's' as u8 && word[1] == 'e' as u8 && word[2]
        == 'a' as u8 && word[3] == 'r' as u8 && word[4] == 'c' as u8 && word[5] == 'h' as u8;
    proof {
        if yes {
            assert(word@ =~= search_word());
        }
    }
    yes
}

/// What stands behind `ndots:`.
fn strip_ndots(option: &[u8]) -> (text: Option<&[u8]>)
    ensures
        match text {
            Some(text) => ndots_text(option@) == Some(text@),
            None => ndots_text(option@) is None,
        },
{
    if option.len() >= 6 && option[0] == 'n' as u8 && option[1] == 'd' as u8 && option[2]
        == 'o' as u8 && option[3] == 't' as u8 && option[4] == 's' as u8 && option[5] == ':' as u8 {
        assert(option@.take(6) =~= ndots_prefix());
        let rest = vstd::slice::slice_subrange(option, 6, option.len());
        assert(rest@ =~= option@.skip(6));
        Some(rest)
    } else {
        proof {
            if option@.len() >= 6 && option@.take(6) == ndots_prefix() {
                assert(option@[0] == option@.take(6)[0]);
                assert(option@[1] == option@.take(6)[1]);
                assert(option@[2] == option@.take(6)[2]);
                assert(option@[3] == option@.take(6)[3]);
                assert(option@[4] == option@.take(6)[4]);
                assert(option@[5] == option@.take(6)[5]);
            }
        }
        None
    }
}

/// Goes through the options of a line, the first word being `options` itself.
fn read_options<'a>(words: &Vec<&'a [u8]>, ndots: u8) -> (read: Result<u8, &'a [u8]>)
    requires
        words@.len() > 0,
    ensures
        match read {
            Ok(n) => ndots_after(pieces_view(words@).skip(1), ndots) == Ok::<u8, Seq<u8>>(n),
            Err(text) => ndots_after(pieces_view(words@).skip(1), ndots) == Err::<u8, Seq<u8>>(
                text@,
            ),
        },
{
    let ghost options = pieces_view(words@).skip(1);
    let mut n: u8 = ndots;
    let mut i: usize = 1;
    assert(options.take(0) =~= Seq::empty());
    while i < words.len()
        invariant
            1 <= i <= words@.len(),
            options == pieces_view(words@).skip(1),
            ndots_after(options.take(i - 1), ndots) == Ok::<u8, Seq<u8>>(n),
        decreases words@.len() - i,
    {
        proof {
            assert(options.take(i as int).drop_last() =~= options.take(i - 1));
            assert(options.take(i as int).last() == words@[i as int]@);
        }
        if let Some(text) = strip_ndots(words[i]) {
            match parse_as_str(text) {
                Ok(value) => {
                    n = value;
                },
                Err(()) => {
                    proof {
                        lemma_ndots_error_stays(options, ndots, i as int);
                    }
                    return Err(text);
                },
            }
        }
        i = i + 1;
    }
    assert(options.take(i - 1) =~= options);
    Ok(n)
}

/// Once an option is wrong, later options do not change that.
proof fn lemma_ndots_error_stays(options: Seq<Seq<u8>>, ndots: u8, i: int)
    requires
        0 <= i <= options.len(),
        ndots_after(options.take(i), ndots) is Err,
    ensures
        ndots_after(options, ndots) == ndots_after(options.take(i), ndots),
    decreases options.len() - i,
{
    if i == options.len() {
        assert(options.take(i) =~= options);
    } else {
        assert(options.take(i + 1).drop_last() =~= options.take(i));
        lemma_ndots_error_stays(options, ndots, i + 1);
    }
}

/// Once a word is no hostname, later words do not change that.
proof fn lemma_hostname_error_stays(
    words: Seq<Seq<u8>>,
    verdict: spec_fn(Seq<u8>) -> Verdict,
    i: int,
)
    requires
        0 <= i <= words.len(),
        hostnames(words.take(i), verdict) is Err,
    ensures
        hostnames(words, verdict) == hostnames(words.take(i), verdict),
    decreases words.len() - i,
{
    if i == words.len() {
        assert(words.take(i) =~= words);
    } else {
        assert(words.take(i + 1).drop_last() =~= words.take(i));
        lemma_hostname_error_stays(words, verdict, i + 1);
    }
}

/// Once a line is wrong, later lines do not change that.
pub proof fn config_error_stays(
    lines: Seq<Seq<u8>>,
    verdict: spec_fn(Seq<u8>) -> Verdict,
    i: int,
)
    requires
        0 <= i <= lines.len(),
        config_of(lines.take(i), verdict) is Err,
    ensures
        config_of(lines, verdict) == config_of(lines.take(i), verdict),
    decreases lines.len() - i,
{
    if i == lines.len() {
        assert(lines.take(i) =~= lines);
    } else {
        assert(lines.take(i + 1).drop_last() =~= lines.take(i));
        config_error_stays(lines, verdict, i + 1);
    }
}

/// What is made of some lines, once there is one line more before the line in place `at`: the
/// same configuration, or the same fault, but that later lines count one more.
pub open spec fn one_line_later(
    config: Result<ConfigView, (int, Seq<char>)>,
    at: int,
) -> Result<ConfigView, (int, Seq<char>)> {
    match config {
        Ok(config) => Ok(config),
        Err((i, message)) => Err((if i < at { i } else { i + 1 }, message)),
    }
}

/// A line that asks for nothing does not matter: with it or without it the configuration is
/// the same, and so is what is wrong, but for the count of lines.
pub proof fn ignored_line_does_not_matter(
    front: Seq<Seq<u8>>,
    line: Seq<u8>,
    back: Seq<Seq<u8>>,
    verdict: spec_fn(Seq<u8>) -> Verdict,
)
    requires
        directive(line) is Ignored,
    ensures
        config_of(front.push(line) + back, verdict) == one_line_later(
            config_of(front + back, verdict),
            front.len() as int,
        ),
    decreases back.len(),
{
    let without = front + back;
    let with = front.push(line) + back;
    if back.len() == 0 {
        assert(without =~= front);
        assert(with =~= front.push(line));
        assert(with.drop_last() =~= front);
        first_bad_line_decides(front, verdict);
    } else {
        assert(without.drop_last() =~= front + back.drop_last());
        assert(with.drop_last() =~= front.push(line) + back.drop_last());
        assert(without.last() == with.last());
        ignored_line_does_not_matter(front, line, back.drop_last(), verdict);
    }
}

/// A separator between two texts keeps the pieces of each apart.
pub proof fn split_at_a_separator(a: Seq<u8>, b: Seq<u8>, separator: u8, sep: Separator)
    requires
        sep.separates(separator),
    ensures
        split(a.push(separator) + b, sep) == split(a, sep) + split(b, sep),
    decreases b.len(),
{
    let whole = a.push(separator) + b;
    let left = split(a, sep);
    if b.len() == 0 {
        assert(whole =~= a.push(separator));
        assert(whole.drop_last() =~= a);
        assert(split(whole, sep) =~= left + split(b, sep));
    } else {
        let right = split(b.drop_last(), sep);
        split_at_a_separator(a, b.drop_last(), separator, sep);
        pieces_have_no_separators(b.drop_last(), sep);
        assert(whole.drop_last() =~= a.push(separator) + b.drop_last());
        assert((left + right).drop_last() =~= left + right.drop_last());
        assert(split(whole, sep) =~= left + split(b, sep));
    }
}

/// A text without separators is all one piece.
pub proof fn text_without_separators_is_one_piece(text: Seq<u8>, sep: Separator)
    requires
        forall|i: int| 0 <= i < text.len() ==> !sep.separates(#[trigger] text[i]),
    ensures
        split(text, sep) == seq![text],
    decreases text.len(),
{
    if text.len() == 0 {
        assert(text =~= Seq::empty());
    } else {
        let front = text.drop_last();
        assert forall|i: int| 0 <= i < front.len() implies !sep.separates(#[trigger] front[i]) by {
            assert(front[i] == text[i]);
        }
        text_without_separators_is_one_piece(front, sep);
        assert(!sep.separates(text[text.len() - 1]));
        assert(front.push(text.last()) =~= text);
        assert(split(text, sep) =~= seq![text]);
    }
}

/// A line that asks for nothing does not matter, wherever it stands in a file: in the middle,
/// as the first line or as the last.
pub proof fn ignored_line_in_a_file_does_not_matter(
    front: Seq<u8>,
    line: Seq<u8>,
    back: Seq<u8>,
    newline: u8,
    verdict: spec_fn(Seq<u8>) -> Verdict,
)
    requires
        Separator::Newline.separates(newline),
        forall|i: int| 0 <= i < line.len() ==> !Separator::Newline.separates(#[trigger] line[i]),
        directive(line) is Ignored,
    ensures
        config_of(
            split(front.push(newline) + (line.push(newline) + back), Separator::Newline),
            verdict,
        ) == one_line_later(
            config_of(split(front.push(newline) + back, Separator::Newline), verdict),
            split(front, Separator::Newline).len() as int,
        ),
        config_of(split(line.push(newline) + back, Separator::Newline), verdict) == one_line_later(
            config_of(split(back, Separator::Newline), verdict),
            0,
        ),
        config_of(split(front.push(newline) + line, Separator::Newline), verdict)
            == one_line_later(
            config_of(split(front, Separator::Newline), verdict),
            split(front, Separator::Newline).len() as int,
        ),
{
    let first = split(front, Separator::Newline);
    let last = split(back, Separator::Newline);
    text_without_separators_is_one_piece(line, Separator::Newline);
    split_at_a_separator(line, back, newline, Separator::Newline);
    split_at_a_separator(front, line.push(newline) + back, newline, Separator::Newline);
    split_at_a_separator(front, back, newline, Separator::Newline);
    split_at_a_separator(front, line, newline, Separator::Newline);
    assert(first + (seq![line] + last) =~= first.push(line) + last);
    ignored_line_does_not_matter(first, line, last, verdict);
    assert(seq![line] + last =~= Seq::<Seq<u8>>::empty().push(line) + last);
    assert(Seq::<Seq<u8>>::empty() + last =~= last);
    ignored_line_does_not_matter(Seq::empty(), line, last, verdict);
    assert(first + seq![line] =~= first.push(line) + Seq::<Seq<u8>>::empty());
    assert(first + Seq::<Seq<u8>>::empty() =~= first);
    ignored_line_does_not_matter(first, line, Seq::empty(), verdict);
}

/// What is wrong with a line, if anything is.
pub open spec fn fault(line: Seq<u8>, verdict: spec_fn(Seq<u8>) -> Verdict) -> Option<Seq<char>> {
    match directive(line) {
        Directive::Ignored => None,
        Directive::Options(options) => match ndots_after(options, 1) {
            Ok(_) => None,
            Err(text) => Some(ndots_message(lossy_text(text))),
        },
        Directive::Search(words) => match hostnames(words, verdict) {
            Ok(_) => None,
            Err(error) => Some(search_message(error)),
        },
    }
}

/// Which option is wrong does not depend on the value of `ndots` before.
proof fn lemma_ndots_fault(options: Seq<Seq<u8>>, a: u8, b: u8)
    ensures
        ndots_after(options, a) is Err <==> ndots_after(options, b) is Err,
        ndots_after(options, a) is Err ==> ndots_after(options, a) == ndots_after(options, b),
    decreases options.len(),
{
    if options.len() > 0 {
        lemma_ndots_fault(options.drop_last(), a, b);
    }
}

/// The first line that is wrong decides: an error names it and says what is wrong with it.
/// There is an error only if some line is wrong.
pub proof fn first_bad_line_decides(lines: Seq<Seq<u8>>, verdict: spec_fn(Seq<u8>) -> Verdict)
    ensures
        match config_of(lines, verdict) {
            Ok(_) => forall|i: int|
                0 <= i < lines.len() ==> fault(#[trigger] lines[i], verdict) is None,
            Err((i, message)) => {
                &&& 0 <= i < lines.len()
                &&& fault(lines[i], verdict) == Some(message)
                &&& forall|j: int| 0 <= j < i ==> fault(#[trigger] lines[j], verdict) is None
            },
        },
    decreases lines.len(),
{
    if lines.len() > 0 {
        let front = lines.drop_last();
        first_bad_line_decides(front, verdict);
        assert forall|i: int| 0 <= i < front.len() implies #[trigger] lines[i] == front[i] by {}
        if let Ok(config) = config_of(front, verdict) {
            if let Directive::Options(options) = directive(lines.last()) {
                lemma_ndots_fault(options, config.ndots, 1);
            }
        }
    }
}

/// Whether a line sets `ndots`.
pub open spec fn sets_ndots(line: Seq<u8>) -> bool {
    directive(line) matches Directive::Options(options) && exists|i: int|
        0 <= i < options.len() && ndots_text(#[trigger] options[i]) is Some
}

/// A line sets `ndots` if it has an option that starts with `ndots:`.
pub proof fn setting_ndots_takes_an_option(line: Seq<u8>)
    ensures
        sets_ndots(line) <==> directive(line) is Options && exists|i: int|
            {
                let option = #[trigger] directive(line)->Options_0[i];
                &&& 0 <= i < directive(line)->Options_0.len()
                &&& option.len() >= 6
                &&& option[0] == 110 && option[1] == 100 && option[2] == 111 && option[3] == 116
                &&& option[4] == 115 && option[5] == 58
            },
{
    if let Directive::Options(options) = directive(line) {
        let prefix = seq![110u8, 100u8, 111u8, 116u8, 115u8, 58u8];
        assert forall|i: int| 0 <= i < options.len() implies (ndots_text(#[trigger] options[i])
            is Some <==> {
            let option = options[i];
            &&& option.len() >= 6
            &&& option[0] == 110 && option[1] == 100 && option[2] == 111 && option[3] == 116
            &&& option[4] == 115 && option[5] == 58
        }) by {
            let option = options[i];
            if ndots_text(option) is Some {
                ndots_stands_behind_its_prefix(option, ndots_text(option)->0);
            } else if option.len() >= 6 && option[0] == 110 && option[1] == 100 && option[2] == 111
                && option[3] == 116 && option[4] == 115 && option[5] == 58 {
                assert(option =~= prefix + option.skip(6));
                ndots_stands_behind_its_prefix(option, option.skip(6));
            }
        }
    }
}

/// Options that say nothing about `ndots` leave it as it is.
pub proof fn lemma_ndots_unset(options: Seq<Seq<u8>>, ndots: u8)
    requires
        forall|i: int| 0 <= i < options.len() ==> ndots_text(#[trigger] options[i]) is None,
    ensures
        ndots_after(options, ndots) == Ok::<u8, Seq<u8>>(ndots),
    decreases options.len(),
{
    if options.len() > 0 {
        let front = options.drop_last();
        assert forall|i: int| 0 <= i < front.len() implies ndots_text(#[trigger] front[i])
            is None by {
            assert(front[i] == options[i]);
        }
        lemma_ndots_unset(front, ndots);
        assert(ndots_text(options[options.len() - 1]) is None);
    }
}

/// The last option for `ndots` in a file counts, in whichever line it stands.
pub proof fn last_ndots_in_a_file_counts(
    lines: Seq<Seq<u8>>,
    verdict: spec_fn(Seq<u8>) -> Verdict,
    line: int,
    options: Seq<Seq<u8>>,
    at: int,
    text: Seq<u8>,
)
    requires
        0 <= line < lines.len(),
        directive(lines[line]) == Directive::Options(options),
        0 <= at < options.len(),
        ndots_text(options[at]) == Some(text),
        forall|i: int| at < i < options.len() ==> ndots_text(#[trigger] options[i]) is None,
        forall|i: int| line < i < lines.len() ==> !sets_ndots(#[trigger] lines[i]),
    ensures
        config_of(lines, verdict) matches Ok(config) ==> parse_u8(text) == Some(config.ndots),
    decreases lines.len(),
{
    let front = lines.drop_last();
    if line < lines.len() - 1 {
        assert(front[line] == lines[line]);
        assert forall|i: int| line < i < front.len() implies !sets_ndots(#[trigger] front[i]) by {
            assert(front[i] == lines[i]);
        }
        last_ndots_in_a_file_counts(front, verdict, line, options, at, text);
        lemma_keeps_ndots(lines, verdict);
    } else if let Ok(config) = config_of(front, verdict) {
        last_ndots_counts(options, config.ndots, at, text);
    }
}

/// Where no line sets `ndots` it is 1.
pub proof fn unset_ndots_is_one(lines: Seq<Seq<u8>>, verdict: spec_fn(Seq<u8>) -> Verdict)
    requires
        forall|i: int| 0 <= i < lines.len() ==> !sets_ndots(#[trigger] lines[i]),
    ensures
        config_of(lines, verdict) matches Ok(config) ==> config.ndots == 1,
    decreases lines.len(),
{
    if lines.len() > 0 {
        let front = lines.drop_last();
        assert forall|i: int| 0 <= i < front.len() implies !sets_ndots(#[trigger] front[i]) by {
            assert(front[i] == lines[i]);
        }
        unset_ndots_is_one(front, verdict);
        lemma_keeps_ndots(lines, verdict);
    }
}

/// A last line that does not set `ndots` leaves it as it was.
proof fn lemma_keeps_ndots(lines: Seq<Seq<u8>>, verdict: spec_fn(Seq<u8>) -> Verdict)
    requires
        lines.len() > 0,
        !sets_ndots(lines[lines.len() - 1]),
    ensures
        config_of(lines, verdict) matches Ok(config) ==> (config_of(lines.drop_last(), verdict)
            matches Ok(before) && config.ndots == before.ndots),
{
    if let Ok(before) = config_of(lines.drop_last(), verdict) {
        if let Directive::Options(options) = directive(lines.last()) {
            lemma_ndots_unset(options, before.ndots);
        }
    }
}

/// Where no line asks for anything, `ndots` is 1 and there is no search path.
pub proof fn nothing_asked_gives_the_defaults(
    lines: Seq<Seq<u8>>,
    verdict: spec_fn(Seq<u8>) -> Verdict,
)
    requires
        forall|i: int| 0 <= i < lines.len() ==> directive(#[trigger] lines[i]) is Ignored,
    ensures
        config_of(lines, verdict) == Ok::<ConfigView, (int, Seq<char>)>(
            ConfigView { ndots: 1, search: Seq::empty() },
        ),
    decreases lines.len(),
{
    if lines.len() > 0 {
        assert forall|i: int| 0 <= i < lines.drop_last().len() implies directive(
            #[trigger] lines.drop_last()[i],
        ) is Ignored by {
            assert(lines.drop_last()[i] == lines[i]);
        }
        nothing_asked_gives_the_defaults(lines.drop_last(), verdict);
        assert(directive(lines[lines.len() - 1]) is Ignored);
    }
}

/// The last line with a search path counts: it is all there is of the search path.
pub proof fn last_search_counts(
    lines: Seq<Seq<u8>>,
    verdict: spec_fn(Seq<u8>) -> Verdict,
    at: int,
    words: Seq<Seq<u8>>,
)
    requires
        0 <= at < lines.len(),
        directive(lines[at]) == Directive::Search(words),
        forall|i: int| at < i < lines.len() ==> !(directive(#[trigger] lines[i]) is Search),
    ensures
        config_of(lines, verdict) matches Ok(config) ==> hostnames(words, verdict) == Ok::<
            Seq<Seq<char>>,
            Seq<char>,
        >(config.search),
    decreases lines.len(),
{
    if at < lines.len() - 1 {
        let front = lines.drop_last();
        assert(front[at] == lines[at]);
        assert forall|i: int| at < i < front.len() implies !(directive(#[trigger] front[i])
            is Search) by {
            assert(front[i] == lines[i]);
        }
        last_search_counts(front, verdict, at, words);
        assert(!(directive(lines[lines.len() - 1]) is Search));
    }
}

/// The last option for `ndots` in a line counts.
pub proof fn last_ndots_counts(options: Seq<Seq<u8>>, ndots: u8, at: int, text: Seq<u8>)
    requires
        0 <= at < options.len(),
        ndots_text(options[at]) == Some(text),
        forall|i: int| at < i < options.len() ==> ndots_text(#[trigger] options[i]) is None,
    ensures
        ndots_after(options, ndots) matches Ok(n) ==> parse_u8(text) == Some(n),
    decreases options.len(),
{
    if at < options.len() - 1 {
        let front = options.drop_last();
        assert(front[at] == options[at]);
        assert forall|i: int| at < i < front.len() implies ndots_text(#[trigger] front[i])
            is None by {
            assert(front[i] == options[i]);
        }
        last_ndots_counts(front, ndots, at, text);
        assert(ndots_text(options[options.len() - 1]) is None);
    }
}

/// No piece of a text has a separator in it, and there is always one piece at least.
pub proof fn pieces_have_no_separators(text: Seq<u8>, sep: Separator)
    ensures
        split(text, sep).len() > 0,
        forall|i: int, j: int|
            0 <= i < split(text, sep).len() && 0 <= j < split(text, sep)[i].len()
                ==> !sep.separates(#[trigger] split(text, sep)[i][j]),
    decreases text.len(),
{
    if text.len() > 0 {
        pieces_have_no_separators(text.drop_last(), sep);
        let pieces = split(text.drop_last(), sep);
        let all = split(text, sep);
        assert forall|i: int, j: int|
            0 <= i < all.len() && 0 <= j < all[i].len() implies !sep.separates(
            #[trigger] all[i][j],
        ) by {
            if i < pieces.len() && j < pieces[i].len() {
                assert(all[i][j] == pieces[i][j]);
            }
        }
    }
}

/// Whitespace is a space, a tab, a line feed, a form feed or a carriage return. A newline is a
/// line feed.
pub proof fn separators_byte_by_byte(b: u8)
    ensures
        is_whitespace(b) <==> b == 32 || (9 <= b <= 13 && b != 11),
        Separator::Whitespace.separates(b) <==> b == 32 || (9 <= b <= 13 && b != 11),
        Separator::Newline.separates(b) <==> b == 10,
{
}

proof fn lemma_trim_start(text: Seq<u8>) -> (i: int)
    ensures
        0 <= i <= text.len(),
        trim_start(text) == text.skip(i),
        forall|k: int| 0 <= k < i ==> is_whitespace(#[trigger] text[k]),
        i < text.len() ==> !is_whitespace(text[i]),
    decreases text.len(),
{
    if text.len() > 0 && is_whitespace(text.first()) {
        let rest = text.drop_first();
        let i = lemma_trim_start(rest);
        assert(rest.skip(i) =~= text.skip(i + 1));
        assert forall|k: int| 0 <= k < i + 1 implies is_whitespace(#[trigger] text[k]) by {
            if k > 0 {
                assert(text[k] == rest[k - 1]);
            }
        }
        i + 1
    } else {
        assert(text.skip(0) =~= text);
        0
    }
}

proof fn lemma_trim_end(text: Seq<u8>) -> (j: int)
    ensures
        0 <= j <= text.len(),
        trim_end(text) == text.take(j),
        forall|k: int| j <= k < text.len() ==> is_whitespace(#[trigger] text[k]),
        j > 0 ==> !is_whitespace(text[j - 1]),
    decreases text.len(),
{
    if text.len() > 0 && is_whitespace(text.last()) {
        let front = text.drop_last();
        let j = lemma_trim_end(front);
        assert(front.take(j) =~= text.take(j));
        assert forall|k: int| j <= k < text.len() implies is_whitespace(#[trigger] text[k]) by {
            if k < front.len() {
                assert(text[k] == front[k]);
            }
        }
        j
    } else {
        assert(text.take(text.len() as int) =~= text);
        text.len() as int
    }
}

/// What is left of a line is a part of it that neither starts nor ends with whitespace, and all
/// that stands before and after it is whitespace.
pub proof fn trim_takes_whitespace_off_both_ends(line: Seq<u8>)
    ensures
        exists|i: int, j: int|
            {
                &&& 0 <= i <= j <= line.len()
                &&& #[trigger] line.subrange(i, j) == trim_end(trim_start(line))
                &&& forall|k: int|
                    0 <= k < i || j <= k < line.len() ==> #[trigger] line[k] == 32 || (9 <= line[k]
                        <= 13 && line[k] != 11)
                &&& i < j ==> !(line[i] == 32 || (9 <= line[i] <= 13 && line[i] != 11))
                &&& i < j ==> !(line[j - 1] == 32 || (9 <= line[j - 1] <= 13 && line[j - 1] != 11))
            },
{
    let i = lemma_trim_start(line);
    let rest = line.skip(i);
    let n = lemma_trim_end(rest);
    let j = i + n;
    assert(line.subrange(i, j) =~= rest.take(n));
    assert forall|k: int| 0 <= k < i || j <= k < line.len() implies #[trigger] line[k] == 32 || (9
        <= line[k] <= 13 && line[k] != 11) by {
        if k >= j {
            assert(line[k] == rest[k - i]);
            assert(is_whitespace(rest[k - i]));
        } else {
            assert(is_whitespace(line[k]));
        }
    }
    if i < j {
        assert(line[j - 1] == rest[n - 1]);
    }
}

/// The first word of a line decides what it asks for: the words behind `options` are options,
/// the words behind `search` are hostnames, and every other line asks for nothing.
pub proof fn the_first_word_decides(line: Seq<u8>)
    ensures
        ({
            let words = split(trim_end(trim_start(line)), Separator::Whitespace);
            &&& words.len() > 0
            &&& words[0] == seq![111u8, 112u8, 116u8, 105u8, 111u8, 110u8, 115u8] ==> directive(
                line,
            ) == Directive::Options(words.skip(1))
            &&& words[0] == seq![115u8, 101u8, 97u8, 114u8, 99u8, 104u8] ==> directive(line)
                == Directive::Search(words.skip(1))
            &&& words[0] != seq![111u8, 112u8, 116u8, 105u8, 111u8, 110u8, 115u8] && words[0]
                != seq![115u8, 101u8, 97u8, 114u8, 99u8, 104u8] ==> directive(line) is Ignored
        }),
{
    let text = trim_end(trim_start(line));
    let words = split(text, Separator::Whitespace);
    pieces_have_no_separators(text, Separator::Whitespace);
    assert(options_word() =~= seq![111u8, 112u8, 116u8, 105u8, 111u8, 110u8, 115u8]);
    assert(search_word() =~= seq![115u8, 101u8, 97u8, 114u8, 99u8, 104u8]);
    assert(options_word().len() == 7 && search_word().len() == 6);
    lemma_first_byte(text, Separator::Whitespace);
}

/// The first piece of a text starts as the text does, if it is not empty.
proof fn lemma_first_byte(text: Seq<u8>, sep: Separator)
    ensures
        split(text, sep).len() > 0,
        split(text, sep)[0].len() <= text.len(),
        split(text, sep)[0].len() > 0 ==> split(text, sep)[0][0] == text[0],
        split(text, sep).len() == 1 ==> split(text, sep)[0] == text,
    decreases text.len(),
{
    if text.len() > 0 {
        lemma_first_byte(text.drop_last(), sep);
        assert(text.drop_last().push(text.last()) =~= text);
    } else {
        assert(text =~= Seq::empty());
    }
}

/// An option is about `ndots` if it starts with `ndots:`, and what follows is the number.
pub proof fn ndots_stands_behind_its_prefix(option: Seq<u8>, text: Seq<u8>)
    ensures
        ndots_text(option) == Some(text) <==> option == seq![
            110u8,
            100u8,
            111u8,
            116u8,
            115u8,
            58u8,
        ] + text,
{
    let prefix = seq![110u8, 100u8, 111u8, 116u8, 115u8, 58u8];
    assert(ndots_prefix() =~= prefix);
    if option == prefix + text {
        assert(option.take(6) =~= prefix);
        assert(option.skip(6) =~= text);
    }
    if ndots_text(option) == Some(text) {
        assert(option =~= option.take(6) + option.skip(6));
    }
}

/// Every option about `ndots` has to hold a number; the first that does not is at fault.
pub proof fn every_ndots_has_to_be_a_number(options: Seq<Seq<u8>>, ndots: u8)
    ensures
        match ndots_after(options, ndots) {
            Ok(_) => forall|i: int|
                0 <= i < options.len() ==> (ndots_text(#[trigger] options[i]) is Some ==> parse_u8(
                    ndots_text(options[i])->0,
                ) is Some),
            Err(text) => exists|i: int|
                {
                    &&& 0 <= i < options.len()
                    &&& ndots_text(#[trigger] options[i]) == Some(text)
                    &&& parse_u8(text) is None
                    &&& forall|j: int|
                        0 <= j < i ==> (ndots_text(#[trigger] options[j]) is Some ==> parse_u8(
                            ndots_text(options[j])->0,
                        ) is Some)
                },
        },
    decreases options.len(),
{
    if options.len() > 0 {
        let front = options.drop_last();
        every_ndots_has_to_be_a_number(front, ndots);
        assert forall|i: int| 0 <= i < front.len() implies #[trigger] options[i] == front[i] by {}
        match ndots_after(front, ndots) {
            Ok(_) => {
                assert forall|i: int|
                    0 <= i < front.len() && ndots_text(#[trigger] options[i])
                        is Some implies parse_u8(ndots_text(options[i])->0) is Some by {
                    assert(options[i] == front[i]);
                }
                assert(options.last() == options[options.len() - 1]);
            },
            Err(text) => {
                let i = choose|i: int|
                    {
                        &&& 0 <= i < front.len()
                        &&& ndots_text(#[trigger] front[i]) == Some(text)
                        &&& parse_u8(text) is None
                        &&& forall|j: int|
                            0 <= j < i ==> (ndots_text(#[trigger] front[j]) is Some ==> parse_u8(
                                ndots_text(front[j])->0,
                            ) is Some)
                    };
                assert(options[i] == front[i]);
                assert forall|j: int|
                    0 <= j < i && ndots_text(#[trigger] options[j]) is Some implies parse_u8(
                    ndots_text(options[j])->0,
                ) is Some by {
                    assert(options[j] == front[j]);
                }
            },
        }
    }
}

/// All words become hostnames, each what the rule makes of it, in their order; or the first
/// that is none is at fault.
pub proof fn every_word_becomes_a_hostname(
    words: Seq<Seq<u8>>,
    verdict: spec_fn(Seq<u8>) -> Verdict,
)
    ensures
        match hostnames(words, verdict) {
            Ok(names) => {
                &&& names.len() == words.len()
                &&& forall|i: int|
                    0 <= i < words.len() ==> verdict(words[i]) == Ok::<Seq<char>, Seq<char>>(
                        #[trigger] names[i],
                    )
            },
            Err(error) => exists|i: int|
                {
                    &&& 0 <= i < words.len()
                    &&& verdict(#[trigger] words[i]) == Err::<Seq<char>, Seq<char>>(error)
                    &&& forall|j: int| 0 <= j < i ==> verdict(#[trigger] words[j]) is Ok
                },
        },
    decreases words.len(),
{
    if words.len() > 0 {
        let front = words.drop_last();
        every_word_becomes_a_hostname(front, verdict);
        match hostnames(front, verdict) {
            Ok(names) => {
                assert forall|j: int| 0 <= j < front.len() implies verdict(#[trigger] words[j])
                    is Ok by {
                    assert(words[j] == front[j]);
                    assert(verdict(front[j]) == Ok::<Seq<char>, Seq<char>>(names[j]));
                }
                assert(words.last() == words[words.len() - 1]);
            },
            Err(error) => {
                let i = choose|i: int|
                    {
                        &&& 0 <= i < front.len()
                        &&& verdict(#[trigger] front[i]) == Err::<Seq<char>, Seq<char>>(error)
                        &&& forall|j: int| 0 <= j < i ==> verdict(#[trigger] front[j]) is Ok
                    };
                assert(words[i] == front[i]);
                assert forall|j: int| 0 <= j < i implies verdict(#[trigger] words[j]) is Ok by {
                    assert(words[j] == front[j]);
                }
            },
        }
    }
}

/// The search path is made of the last search line: as many hostnames as there are words behind
/// `search`, each what the rule makes of the word in its place.
pub proof fn search_path_has_every_word(
    lines: Seq<Seq<u8>>,
    verdict: spec_fn(Seq<u8>) -> Verdict,
    at: int,
    words: Seq<Seq<u8>>,
)
    requires
        0 <= at < lines.len(),
        directive(lines[at]) == Directive::Search(words),
        forall|i: int| at < i < lines.len() ==> !(directive(#[trigger] lines[i]) is Search),
    ensures
        config_of(lines, verdict) matches Ok(config) ==> {
            &&& config.search.len() == words.len()
            &&& forall|i: int|
                0 <= i < words.len() ==> verdict(words[i]) == Ok::<Seq<char>, Seq<char>>(
                    #[trigger] config.search[i],
                )
        },
{
    last_search_counts(lines, verdict, at, words);
    every_word_becomes_a_hostname(words, verdict);
}

/// Without a search line there is no search path.
pub proof fn no_search_gives_no_search_path(
    lines: Seq<Seq<u8>>,
    verdict: spec_fn(Seq<u8>) -> Verdict,
)
    requires
        forall|i: int| 0 <= i < lines.len() ==> !(directive(#[trigger] lines[i]) is Search),
    ensures
        config_of(lines, verdict) matches Ok(config) ==> config.search.len() == 0,
    decreases lines.len(),
{
    if lines.len() > 0 {
        let front = lines.drop_last();
        assert forall|i: int| 0 <= i < front.len() implies !(directive(#[trigger] front[i])
            is Search) by {
            assert(front[i] == lines[i]);
        }
        no_search_gives_no_search_path(front, verdict);
        assert(!(directive(lines[lines.len() - 1]) is Search));
    }
}

/// A line is wrong if an option of it about `ndots` holds no number, or if a word of its search
/// path is no hostname, and in no other way. The message shows the first such text, or says
/// what is wrong with the first such word.
pub proof fn fault_of_a_line(line: Seq<u8>, verdict: spec_fn(Seq<u8>) -> Verdict)
    ensures
        fault(line, verdict) is None ==> {
            &&& directive(line) matches Directive::Options(options) ==> forall|i: int|
                0 <= i < options.len() && ndots_text(#[trigger] options[i]) is Some ==> parse_u8(
                    ndots_text(options[i])->0,
                ) is Some
            &&& directive(line) matches Directive::Search(words) ==> forall|i: int|
                0 <= i < words.len() ==> verdict(#[trigger] words[i]) is Ok
        },
        fault(line, verdict) matches Some(message) ==> match directive(line) {
            Directive::Ignored => false,
            Directive::Options(options) => exists|i: int|
                {
                    &&& 0 <= i < options.len()
                    &&& ndots_text(#[trigger] options[i]) is Some
                    &&& parse_u8(ndots_text(options[i])->0) is None
                    &&& message == "invalid ndots: '"@ + lossy_text(ndots_text(options[i])->0)
                        + "'"@
                    &&& forall|j: int|
                        0 <= j < i && ndots_text(#[trigger] options[j]) is Some ==> parse_u8(
                            ndots_text(options[j])->0,
                        ) is Some
                },
            Directive::Search(words) => exists|i: int|
                {
                    &&& 0 <= i < words.len()
                    &&& verdict(#[trigger] words[i]) is Err
                    &&& message == "search path contains invalid hostname: "@ + verdict(
                        words[i],
                    )->Err_0
                    &&& forall|j: int| 0 <= j < i ==> verdict(#[trigger] words[j]) is Ok
                },
        },
{
    match directive(line) {
        Directive::Ignored => {},
        Directive::Options(options) => {
            every_ndots_has_to_be_a_number(options, 1);
        },
        Directive::Search(words) => {
            every_word_becomes_a_hostname(words, verdict);
            if let Ok(names) = hostnames(words, verdict) {
                assert forall|i: int| 0 <= i < words.len() implies verdict(#[trigger] words[i])
                    is Ok by {
                    assert(verdict(words[i]) == Ok::<Seq<char>, Seq<char>>(names[i]));
                }
            }
        },
    }
}

/// What is made of a file is the configuration that its lines describe, with every hostname in
/// its place; or the path of the file, the line that is wrong and what is wrong with it.
pub proof fn parsed_file_field_by_field(
    parsed: Result<SystemConfig, ConfigError>,
    path: Seq<char>,
    content: Seq<u8>,
    verdict: spec_fn(Seq<u8>) -> Verdict,
)
    requires
        parses_to(parsed, path, content, verdict),
    ensures
        match parsed {
            Ok(parsed) => {
                &&& config_of(split(content, Separator::Newline), verdict) matches Ok(config)
                &&& parsed.ndots == config.ndots
                &&& parsed.search@.len() == config.search.len()
                &&& forall|i: int|
                    0 <= i < config.search.len() ==> (#[trigger] parsed.search@[i])@
                        == config.search[i]
            },
            Err(error) => {
                &&& error matches ConfigError::Invalid { path: p, line, message }
                &&& p@ == path
                &&& config_of(split(content, Separator::Newline), verdict) == Err::<
                    ConfigView,
                    (int, Seq<char>),
                >((line as int, message@))
            },
        },
{
    if let Ok(parsed) = parsed {
        let config = config_of(split(content, Separator::Newline), verdict)->Ok_0;
        assert forall|i: int| 0 <= i < config.search.len() implies (#[trigger] parsed.search@[i])@
            == config.search[i] by {
            assert(names_view(parsed.search@)[i] == parsed.search@[i]@);
        }
    }
}

/// In a file that could be read, the search path has every word behind the last `search`, each
/// as the rule makes it, in their order.
pub proof fn search_path_of_a_file(
    parsed: SystemConfig,
    path: Seq<char>,
    content: Seq<u8>,
    verdict: spec_fn(Seq<u8>) -> Verdict,
    at: int,
    words: Seq<Seq<u8>>,
)
    requires
        parses_to(Ok(parsed), path, content, verdict),
        0 <= at < split(content, Separator::Newline).len(),
        directive(split(content, Separator::Newline)[at]) == Directive::Search(words),
        forall|i: int|
            at < i < split(content, Separator::Newline).len() ==> !(directive(
                #[trigger] split(content, Separator::Newline)[i],
            ) is Search),
    ensures
        parsed.search@.len() == words.len(),
        forall|i: int|
            0 <= i < words.len() ==> verdict(words[i]) == Ok::<Seq<char>, Seq<char>>(
                (#[trigger] parsed.search@[i])@,
            ),
{
    parsed_file_field_by_field(Ok(parsed), path, content, verdict);
    search_path_has_every_word(split(content, Separator::Newline), verdict, at, words);
    let config = config_of(split(content, Separator::Newline), verdict)->Ok_0;
    assert forall|i: int| 0 <= i < words.len() implies verdict(words[i]) == Ok::<
        Seq<char>,
        Seq<char>,
    >((#[trigger] parsed.search@[i])@) by {
        assert(parsed.search@[i]@ == config.search[i]);
    }
}

/// A rule governs a file if it says of each word what the verdict says; and so does any rule,
/// where no line has a search path.
pub proof fn rule_governs<F: Fn(&[u8]) -> Result<Hostname, String>>(
    rule: F,
    verdict: spec_fn(Seq<u8>) -> Verdict,
    content: Seq<u8>,
)
    requires
        (forall|word: &[u8], answer: Result<Hostname, String>| #[trigger]
            call_ensures(rule, (word,), answer) ==> match answer {
                Ok(name) => verdict(word@) == Ok::<Seq<char>, Seq<char>>(name@),
                Err(error) => verdict(word@) == Err::<Seq<char>, Seq<char>>(error@),
            }) || (forall|i: int|
            0 <= i < split(content, Separator::Newline).len() ==> !(directive(
                #[trigger] split(content, Separator::Newline)[i],
            ) is Search)),
    ensures
        governs(rule, verdict, content),
{
}

/// Goes through the hostnames of a line, the first word being `search` itself.
fn read_search<F: Fn(&[u8]) -> Result<Hostname, String>>(words: &Vec<&[u8]>, rule: &F) -> (read:
    Result<Vec<Hostname>, String>)
    requires
        words@.len() > 0,
        forall|word: &[u8]| #[trigger] call_requires(*rule, (word,)),
    ensures
        words@.len() == 1 ==> (read matches Ok(names) && names@.len() == 0),
        forall|verdict: spec_fn(Seq<u8>) -> Verdict| #[trigger]
            decides(*rule, verdict) ==> match read {
                Ok(names) => hostnames(pieces_view(words@).skip(1), verdict) == Ok::<
                    Seq<Seq<char>>,
                    Seq<char>,
                >(names_view(names@)),
                Err(error) => hostnames(pieces_view(words@).skip(1), verdict) == Err::<
                    Seq<Seq<char>>,
                    Seq<char>,
                >(error@),
            },
{
    let ghost rest = pieces_view(words@).skip(1);
    let mut names: Vec<Hostname> = Vec::new();
    let mut i: usize = 1;
    assert(rest.take(0) =~= Seq::empty());
    assert(names_view(names@) =~= Seq::empty());
    while i < words.len()
        invariant
            1 <= i <= words@.len(),
            rest == pieces_view(words@).skip(1),
            i == 1 ==> names@.len() == 0,
            forall|word: &[u8]| #[trigger] call_requires(*rule, (word,)),
            forall|verdict: spec_fn(Seq<u8>) -> Verdict| #[trigger]
                decides(*rule, verdict) ==> hostnames(rest.take(i - 1), verdict) == Ok::<
                    Seq<Seq<char>>,
                    Seq<char>,
                >(names_view(names@)),
        decreases words@.len() - i,
    {
        let ghost before = names_view(names@);
        proof {
            assert(rest.take(i as int).drop_last() =~= rest.take(i - 1));
            assert(rest.take(i as int).last() == words@[i as int]@);
        }
        match rule(words[i]) {
            Ok(name) => {
                names.push(name);
                assert(names_view(names@) =~= before.push(name@));
            },
            Err(error) => {
                assert forall|verdict: spec_fn(Seq<u8>) -> Verdict| #[trigger]
                    decides(*rule, verdict) implies hostnames(rest, verdict) == Err::<
                    Seq<Seq<char>>,
                    Seq<char>,
                >(error@) by {
                    assert(hostnames(rest.take(i - 1), verdict) is Ok);
                    assert(hostnames(rest.take(i as int), verdict) is Err);
                    lemma_hostname_error_stays(rest, verdict, i as int);
                }
                return Err(error);
            },
        }
        i = i + 1;
    }
    assert(rest.take(i - 1) =~= rest);
    Ok(names)
}

/// What is said of a number of dots that is none.
pub fn ndots_error(text: &str) -> (message: String)
    ensures
        message@ == ndots_message(text@),
        message@ == "invalid ndots: '"@ + text@ + "'"@,
{
    String::from_str("invalid ndots: '").concat(text).concat("'")
}

/// What is said of a search path with a word in it that is no hostname.
pub fn search_error(error: &str) -> (message: String)
    ensures
        message@ == search_message(error@),
        message@ == "search path contains invalid hostname: "@ + error@,
{
    String::from_str("search path contains invalid hostname: ").concat(error)
}

/// An extremely simple `resolv.conf` parser.
///
/// The options `ndots` and `search` count, every other directive is passed over, be it well
/// formed or not. `rule` says which words are hostnames.
pub fn parse_resolv_conf<F: Fn(&[u8]) -> Result<Hostname, String>>(
    path: &str,
    content: &[u8],
    rule: F,
) -> (parsed: Result<SystemConfig, ConfigError>)
    requires
        forall|word: &[u8]| #[trigger] call_requires(rule, (word,)),
    ensures
        forall|verdict: spec_fn(Seq<u8>) -> Verdict| #[trigger]
            governs(rule, verdict, content@) ==> parses_to(parsed, path@, content@, verdict),
        parsed matches Err(error) ==> (error matches ConfigError::Invalid { path: p, line, .. }
            && p@ == path@ && line < split(content@, Separator::Newline).len()),
{
    let lines = split_bytes(content, Separator::Newline);
    let ghost all = split(content@, Separator::Newline);
    let mut ndots: u8 = 1;
    let mut search: Vec<Hostname> = Vec::new();
    let mut i: usize = 0;
    assert(all.take(0) =~= Seq::empty());
    assert(names_view(search@) =~= Seq::empty());
    while i < lines.len()
        invariant
            i <= lines@.len(),
            all == pieces_view(lines@),
            all == split(content@, Separator::Newline),
            forall|word: &[u8]| #[trigger] call_requires(rule, (word,)),
            forall|verdict: spec_fn(Seq<u8>) -> Verdict| #[trigger]
                governs(rule, verdict, content@) ==> config_of(all.take(i as int), verdict) == Ok::<
                    ConfigView,
                    (int, Seq<char>),
                >(ConfigView { ndots, search: names_view(search@) }),
        decreases lines@.len() - i,
    {
        let ghost config = ConfigView { ndots, search: names_view(search@) };
        let ghost line = lines@[i as int]@;
        proof {
            assert(all.take(i as int + 1).drop_last() =~= all.take(i as int));
            assert(all.take(i as int + 1).last() == line);
        }
        let text = trim_ascii(lines[i]);
        if text.len() > 0 && text[0] != ';' as u8 && text[0] != '#' as u8 {
            let words = split_bytes(text, Separator::Whitespace);
            assert(pieces_view(words@)[0] == words@[0]@);
            if is_options(words[0]) {
                assert(directive(line) == Directive::Options(pieces_view(words@).skip(1)));
                match read_options(&words, ndots) {
                    Ok(n) => {
                        ndots = n;
                    },
                    Err(text) => {
                        let message = ndots_error(from_utf8_lossy(text).as_str());
                        proof {
                            lemma_bad_line(rule, content@, all, i as int, config, message@);
                        }
                        return Err(
                            ConfigError::Invalid { path: String::from_str(path), line: i, message },
                        );
                    },
                }
            } else if is_search(words[0]) {
                assert(options_word().len() != search_word().len());
                assert(directive(line) == Directive::Search(pieces_view(words@).skip(1)));
                assert(directive(all[i as int]) == directive(line));
                match read_search(&words, &rule) {
                    Ok(names) => {
                        proof {
                            let rest = pieces_view(words@).skip(1);
                            assert forall|verdict: spec_fn(Seq<u8>) -> Verdict| #[trigger]
                                governs(rule, verdict, content@) implies hostnames(rest, verdict)
                                == Ok::<Seq<Seq<char>>, Seq<char>>(names_view(names@)) by {
                                if rest.len() == 0 {
                                    assert(names_view(names@) =~= Seq::empty());
                                } else {
                                    assert(asks_for_names(all));
                                }
                            }
                        }
                        search = names;
                    },
                    Err(error) => {
                        let message = search_error(error.as_str());
                        proof {
                            lemma_bad_line(rule, content@, all, i as int, config, message@);
                        }
                        return Err(
                            ConfigError::Invalid { path: String::from_str(path), line: i, message },
                        );
                    },
                }
            }
        }
        i = i + 1;
    }
    assert(all.take(i as int) =~= all);
    Ok(SystemConfig { ndots, search })
}

/// The first wrong line decides the result, whatever follows it.
proof fn lemma_bad_line<F: Fn(&[u8]) -> Result<Hostname, String>>(
    rule: F,
    content: Seq<u8>,
    lines: Seq<Seq<u8>>,
    i: int,
    config: ConfigView,
    message: Seq<char>,
)
    requires
        0 <= i < lines.len(),
        forall|verdict: spec_fn(Seq<u8>) -> Verdict| #[trigger]
            governs(rule, verdict, content) ==> {
                &&& config_of(lines.take(i), verdict) == Ok::<ConfigView, (int, Seq<char>)>(config)
                &&& config_after(config, lines[i], verdict) == Err::<ConfigView, Seq<char>>(message)
            },
    ensures
        forall|verdict: spec_fn(Seq<u8>) -> Verdict| #[trigger]
            governs(rule, verdict, content) ==> config_of(lines, verdict) == Err::<
                ConfigView,
                (int, Seq<char>),
            >((i, message)),
{
    assert forall|verdict: spec_fn(Seq<u8>) -> Verdict| #[trigger]
        governs(rule, verdict, content) implies config_of(lines, verdict) == Err::<
        ConfigView,
        (int, Seq<char>),
    >((i, message)) by {
        assert(lines.take(i + 1).drop_last() =~= lines.take(i));
        assert(config_of(lines.take(i + 1), verdict) == Err::<ConfigView, (int, Seq<char>)>(
            (i, message),
        ));
        config_error_stays(lines, verdict, i + 1);
    }
}

/// The configuration in what was read from `path`. You probably want to read
/// `/etc/resolv.conf`.
pub fn load_config<F: Fn(&[u8]) -> Result<Hostname, String>>(
    path: &str,
    read: Result<Vec<u8>, ReadError>,
    rule: F,
) -> (loaded: Result<SystemConfig, ConfigError>)
    requires
        forall|word: &[u8]| #[trigger] call_requires(rule, (word,)),
    ensures
        match read {
            Ok(content) => {
                &&& forall|verdict: spec_fn(Seq<u8>) -> Verdict| #[trigger]
                    governs(rule, verdict, content@) ==> parses_to(
                        loaded,
                        path@,
                        content@,
                        verdict,
                    )
                &&& loaded matches Err(error) ==> (error matches ConfigError::Invalid {
                    path: p,
                    line,
                    ..
                } && p@ == path@ && line < split(content@, Separator::Newline).len())
            },
            Err(ReadError::NotFound) => loaded matches Err(ConfigError::NotFound { path: p })
                && p@ == path@,
            Err(ReadError::Other { message }) => loaded matches Err(
                ConfigError::Other { message: m },
            ) && m@ == message@,
        },
{
    match read {
        Ok(content) => parse_resolv_conf(path, content.as_slice(), rule),
        Err(ReadError::NotFound) => Err(ConfigError::NotFound { path: String::from_str(path) }),
        Err(ReadError::Other { message }) => Err(ConfigError::Other { message }),
    }
}

impl ConfigError {
    /// What the error has to say.
    pub open spec fn text(self) -> Seq<char> {
        match self {
            ConfigError::NotFound { path } => "config not found: "@ + path@,
            ConfigError::Invalid { path, line, message } => path@ + ":"@ + decimal(line as nat)
                + ": "@ + message@,
            ConfigError::Other { message } => message@,
        }
    }

    pub fn to_text(&self) -> (text: String)
        ensures
            text@ == self.text(),
            match *self {
                ConfigError::NotFound { path } => text@ == "config not found: "@ + path@,
                ConfigError::Invalid { path, line, message } => text@ == path@ + ":"@ + decimal(
                    line as nat,
                ) + ": "@ + message@,
                ConfigError::Other { message } => text@ == message@,
            },
    {
        match self {
            ConfigError::NotFound { path } => String::from_str("config not found: ").concat(
                path.as_str(),
            ),
            ConfigError::Invalid { path, line, message } => {
                let mut text = path.clone().concat(":");
                append_decimal(&mut text, *line as u64);
                text.append(": ");
                text.append(message.as_str());
                text
            },
            ConfigError::Other { message } => message.clone(),
        }
    }
}

} // verus!
