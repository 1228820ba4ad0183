//! Line classification: every input line becomes one token.

use vstd::prelude::*;

use super::ast::{Directive, DirectiveModel};
use super::marker::{marker_at, spec_marker};
use super::span::Span;
use crate::text::{
    find_char, from_chars, index_of_char, lemma_utf8_len_subrange, lines, next_word, range_eq_str,
    byte_len, spans_of, split_lines, to_chars, trim, trim_bounds, utf8_len, utf8_len_of, words,
};

verus! {

/// One classified input line.
#[derive(Debug, Clone, PartialEq, Eq)]
pub struct Token {
    pub kind: TokenKind,
    /// The line as written, without its line ending.
    pub text: String,
    pub span: Span,
}

/// What a line is.
#[derive(Debug, Clone, PartialEq, Eq)]
pub enum TokenKind {
    /// A `###` request marker with its optional name.
    Marker(Option<String>),
    Empty,
    Comment,
    Directive(Directive),
    Raw,
}

/// Value of a [`TokenKind`].
pub enum KindModel {
    Marker(Option<Seq<char>>),
    Empty,
    Comment,
    Directive(DirectiveModel),
    Raw,
}

/// Value of a [`Token`].
pub struct TokenModel {
    pub kind: KindModel,
    pub text: Seq<char>,
    pub span: Span,
}

impl View for TokenKind {
    type V = KindModel;

    open spec fn view(&self) -> KindModel {
        match self {
            TokenKind::Marker(Some(n)) => KindModel::Marker(Some(n@)),
            TokenKind::Marker(None) => KindModel::Marker(None),
            TokenKind::Empty => KindModel::Empty,
            TokenKind::Comment => KindModel::Comment,
            TokenKind::Directive(d) => KindModel::Directive(d@),
            TokenKind::Raw => KindModel::Raw,
        }
    }
}

impl View for Token {
    type V = TokenModel;

    open spec fn view(&self) -> TokenModel {
        TokenModel { kind: self.kind@, text: self.text@, span: self.span }
    }
}

/// Values of a list of tokens.
pub open spec fn tokens_view(v: Seq<Token>) -> Seq<TokenModel> {
    v.map_values(|t: Token| t@)
}

/// A trimmed line that starts with `#` or `//`.
pub open spec fn is_comment(line: Seq<char>) -> bool {
    ||| line.len() > 0 && line[0] == '#'
    ||| line.len() >= 2 && line[0] == '/' && line[1] == '/'
}

/// `NAME=value` with both sides trimmed and non-empty.
pub open spec fn spec_variable(s: Seq<char>) -> Option<DirectiveModel> {
    match index_of_char(s, '=') {
        None => None,
        Some(i) => {
            let name = trim(s.take(i as int));
            let value = trim(s.skip(i + 1int));
            if name.len() == 0 || value.len() == 0 {
                None
            } else {
                Some(DirectiveModel::Variable(name, value))
            }
        },
    }
}

/// `# @env name`: a `#` followed by exactly the two words `@env` and a name.
pub open spec fn spec_metadata_comment(line: Seq<char>) -> Option<DirectiveModel> {
    if line.len() > 0 && line[0] == '#' {
        let parts = words(trim(line.drop_first()));
        if parts.len() == 2 && parts[0] == "@env"@ {
            Some(DirectiveModel::Env(parts[1]))
        } else {
            None
        }
    } else {
        None
    }
}

/// `@NAME=value`.
pub open spec fn spec_inline_variable(line: Seq<char>) -> Option<DirectiveModel> {
    if line.len() > 0 && line[0] == '@' {
        spec_variable(line.drop_first())
    } else {
        None
    }
}

/// The directive a trimmed line holds, if any.
pub open spec fn spec_directive(line: Seq<char>) -> Option<DirectiveModel> {
    match spec_metadata_comment(line) {
        Some(d) => Some(d),
        None => spec_inline_variable(line),
    }
}

/// The kind of a trimmed line; markers win over everything, then emptiness,
/// directives and comments.
pub open spec fn classify(trimmed: Seq<char>) -> KindModel {
    match spec_marker(trimmed) {
        Some(name) => KindModel::Marker(name),
        None => if trimmed.len() == 0 {
            KindModel::Empty
        } else {
            match spec_directive(trimmed) {
                Some(d) => KindModel::Directive(d),
                None => if is_comment(trimmed) {
                    KindModel::Comment
                } else {
                    KindModel::Raw
                },
            }
        },
    }
}

/// The token of line `line_number` whose text is `raw`.
pub open spec fn spec_lex_line(line_number: usize, raw: Seq<char>) -> TokenModel {
    TokenModel {
        kind: classify(trim(raw)),
        text: raw,
        span: Span {
            start_line: line_number,
            start_column: 1,
            end_line: line_number,
            end_column: (utf8_len(raw) + 1) as usize,
        },
    }
}

/// The tokens of `input`: one per line, numbered from 1.
pub open spec fn spec_lex(input: Seq<char>) -> Seq<TokenModel> {
    lines(input).map(|i: int, l: Seq<char>| spec_lex_line((i + 1) as usize, l))
}

/// The directive of the trimmed line `v[a..b]`.
fn directive_at(v: &Vec<char>, a: usize, b: usize) -> (d: Option<Directive>)
    requires
        a <= b <= v.len(),
    ensures
        match d {
            Some(d) => spec_directive(v@.subrange(a as int, b as int)) == Some(d@),
            None => spec_directive(v@.subrange(a as int, b as int)) is None,
        },
{
    let ghost line = v@.subrange(a as int, b as int);
    if a < b && v[a] == '#' {
        let (c, d) = trim_bounds(v, a + 1, b);
        assert(line.drop_first() =~= v@.subrange(a + 1, b as int));
        if let Some((w0a, w0b)) = next_word(v, c, d) {
            if range_eq_str(v, w0a, w0b, "@env") {
                if let Some((w1a, w1b)) = next_word(v, w0b, d) {
                    if next_word(v, w1b, d).is_none() {
                        let env = from_chars(v, w1a, w1b);
                        return Some(Directive::Env(env));
                    }
                }
            }
        }
    }
    if a < b && v[a] == '@' {
        assert(line.drop_first() =~= v@.subrange(a + 1, b as int));
        if let Some(i) = find_char(v, a + 1, b, '=') {
            let ghost s = v@.subrange(a + 1, b as int);
            assert(s.take(i - (a + 1)) =~= v@.subrange(a + 1, i as int));
            assert(s.skip(i - (a + 1) + 1) =~= v@.subrange(i + 1, b as int));
            let (na, nb) = trim_bounds(v, a + 1, i);
            let (va, vb) = trim_bounds(v, i + 1, b);
            if na < nb && va < vb {
                let name = from_chars(v, na, nb);
                let value = from_chars(v, va, vb);
                return Some(Directive::Variable { name, value });
            }
        }
    }
    None
}

/// Parses a trimmed directive line: `# @env name` or `@NAME=value`.
pub fn parse_directive(line: &str) -> (d: Option<Directive>)
    ensures
        match d {
            Some(d) => spec_directive(line@) == Some(d@),
            None => spec_directive(line@) is None,
        },
{
    let v = to_chars(line);
    assert(v@.subrange(0, v@.len() as int) =~= v@);
    directive_at(&v, 0, v.len())
}

/// Classifies the line `v[lo..hi]`, numbered `line_number`.
fn lex_line(v: &Vec<char>, lo: usize, hi: usize, line_number: usize) -> (t: Token)
    requires
        lo <= hi <= v.len(),
        utf8_len(v@.subrange(lo as int, hi as int)) < usize::MAX,
    ensures
        t@ == spec_lex_line(line_number, v@.subrange(lo as int, hi as int)),
{
    let (a, b) = trim_bounds(v, lo, hi);
    let kind = if let Some(name) = marker_at(v, a, b) {
        TokenKind::Marker(name)
    } else if a == b {
        TokenKind::Empty
    } else if let Some(directive) = directive_at(v, a, b) {
        TokenKind::Directive(directive)
    } else if v[a] == '#' || (b - a >= 2 && v[a] == '/' && v[a + 1] == '/') {
        TokenKind::Comment
    } else {
        TokenKind::Raw
    };
    let len = utf8_len_of(v, lo, hi);
    Token { kind, text: from_chars(v, lo, hi), span: Span::line(line_number, len) }
}

/// Splits `input` into classified lines.
pub fn lex(input: &str) -> (tokens: Vec<Token>)
    ensures
        tokens_view(tokens@) == spec_lex(input@),
        tokens@.len() <= input@.len(),
{
    byte_len(input);
    let v = to_chars(input);
    let ranges = split_lines(&v);
    let mut tokens: Vec<Token> = Vec::new();
    let mut i: usize = 0;
    while i < ranges.len()
        invariant
            v@ == input@,
            utf8_len(v@) < usize::MAX,
            spans_of(v@, ranges@) == lines(v@),
            ranges@.len() <= v@.len(),
            forall|k: int| 0 <= k < ranges@.len() ==> (#[trigger] ranges@[k]).0 <= ranges@[k].1 <= v@.len(),
            i <= ranges@.len(),
            tokens_view(tokens@) == spec_lex(input@).take(i as int),
        decreases ranges@.len() - i,
    {
        let (lo, hi) = ranges[i];
        proof {
            lemma_utf8_len_subrange(v@, lo as int, hi as int);
            assert(spans_of(v@, ranges@)[i as int] == v@.subrange(lo as int, hi as int));
        }
        let t = lex_line(&v, lo, hi, i + 1);
        assert(lines(v@)[i as int] == v@.subrange(lo as int, hi as int));
        assert(spec_lex(input@)[i as int] == t@);
        let ghost old_tokens = tokens@;
        tokens.push(t);
        assert(tokens_view(tokens@) =~= tokens_view(old_tokens).push(t@));
        i = i + 1;
        assert(tokens_view(tokens@) =~= spec_lex(input@).take(i as int));
    }
    assert(spec_lex(input@).take(i as int) =~= spec_lex(input@));
    tokens
}

} // verus!
