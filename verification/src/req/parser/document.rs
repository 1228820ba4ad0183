//! Grouping of classified lines into request blocks.
//!
//! A block starts at a `###` marker, or at a request line that follows the
//! body of the previous block. Comments and directives that directly precede
//! such a request line belong to the new block.

use vstd::prelude::*;

use super::ast::{blocks_view, lines_view, BlockModel, LineModel, ReqBlock, ReqDocument, ReqLine};
use super::grammar::{looks_like_request_line, request_line_at};
use super::lexer::{lex, spec_lex, spec_lex_line, tokens_view, KindModel, Token, TokenKind, TokenModel};
use super::span::Span;
use crate::req::model::opt_view;
use crate::text::{lines, to_chars, trim, trim_bounds, utf8_len};

verus! {

/// Where a block under construction is in its grammar.
#[derive(Debug, Clone, Copy, PartialEq, Eq, Structural)]
pub enum BlockState {
    BeforeRequestLine,
    InHeaders,
    InBody,
}

/// Value of a block under construction.
pub struct BuilderModel {
    pub name: Option<Seq<char>>,
    pub marker_line: Option<usize>,
    pub start_line: Option<usize>,
    pub span: Span,
    pub lines: Seq<LineModel>,
    pub state: BlockState,
}

/// Value of the document parser between two tokens.
pub struct ParserModel {
    pub blocks: Seq<BlockModel>,
    pub current: Option<BuilderModel>,
    pub pending: Seq<TokenModel>,
}

/// A raw token whose trimmed text looks like `METHOD URL`.
pub open spec fn token_is_request_line(t: TokenModel) -> bool {
    t.kind is Raw && looks_like_request_line(trim(t.text))
}

/// Comments and directives, which may open the next block.
pub open spec fn token_is_prefix(t: TokenModel) -> bool {
    t.kind is Comment || t.kind is Directive
}

/// The block line a (non-marker) token becomes.
pub open spec fn line_of_token(t: TokenModel) -> LineModel {
    match t.kind {
        KindModel::Comment => LineModel::Comment(t.text),
        KindModel::Directive(d) => LineModel::Directive(d),
        KindModel::Raw => LineModel::Raw(t.text),
        _ => LineModel::Empty,
    }
}

/// State after a token: a request line enters the headers, the first empty
/// line after it enters the body.
pub open spec fn next_state(s: BlockState, t: TokenModel) -> BlockState {
    match s {
        BlockState::BeforeRequestLine => if token_is_request_line(t) {
            BlockState::InHeaders
        } else {
            s
        },
        BlockState::InHeaders => if t.kind is Empty {
            BlockState::InBody
        } else {
            s
        },
        BlockState::InBody => s,
    }
}

pub open spec fn spec_marked(name: Option<Seq<char>>, marker_span: Span) -> BuilderModel {
    BuilderModel {
        name,
        marker_line: Some(marker_span.start_line),
        start_line: None,
        span: marker_span,
        lines: seq![],
        state: BlockState::BeforeRequestLine,
    }
}

pub open spec fn spec_unmarked() -> BuilderModel {
    BuilderModel {
        name: None,
        marker_line: None,
        start_line: None,
        span: Span { start_line: 1, start_column: 1, end_line: 1, end_column: 1 },
        lines: seq![],
        state: BlockState::BeforeRequestLine,
    }
}

/// Adds one token to a block under construction.
pub open spec fn builder_push(b: BuilderModel, t: TokenModel) -> BuilderModel {
    BuilderModel {
        name: b.name,
        marker_line: b.marker_line,
        start_line: if b.start_line is None {
            Some(t.span.start_line)
        } else {
            b.start_line
        },
        span: if b.start_line is None {
            t.span
        } else {
            Span {
                start_line: b.span.start_line,
                start_column: b.span.start_column,
                end_line: t.span.end_line,
                end_column: t.span.end_column,
            }
        },
        lines: b.lines.push(line_of_token(t)),
        state: next_state(b.state, t),
    }
}

/// Adds tokens in order.
pub open spec fn builder_push_all(b: BuilderModel, ts: Seq<TokenModel>) -> BuilderModel
    decreases ts.len(),
{
    if ts.len() == 0 {
        b
    } else {
        builder_push(builder_push_all(b, ts.drop_last()), ts.last())
    }
}

/// The block a builder yields: none for an unmarked builder that got no
/// line; a marked one without lines starts on the line after its marker.
pub open spec fn builder_finish(b: BuilderModel) -> Option<BlockModel> {
    let start = match b.start_line {
        Some(s) => Some(s),
        None => match b.marker_line {
            Some(m) => Some((m + 1) as usize),
            None => None,
        },
    };
    match start {
        None => None,
        Some(s) => Some(
            BlockModel {
                name: b.name,
                marker_line: b.marker_line,
                start_line: s,
                lines: b.lines,
                span: Span {
                    start_line: match b.marker_line {
                        Some(m) => m,
                        None => b.span.start_line,
                    },
                    start_column: 1,
                    end_line: b.span.end_line,
                    end_column: b.span.end_column,
                },
            },
        ),
    }
}

/// Closes the block under construction, if any.
pub open spec fn finish_current(p: ParserModel) -> ParserModel {
    match p.current {
        None => p,
        Some(b) => ParserModel {
            blocks: match builder_finish(b) {
                Some(blk) => p.blocks.push(blk),
                None => p.blocks,
            },
            current: None,
            pending: p.pending,
        },
    }
}

/// The current block is in its body.
pub open spec fn in_body(p: ParserModel) -> bool {
    p.current matches Some(b) && b.state == BlockState::InBody
}

/// Feeds one token to the document parser.
pub open spec fn shift(p: ParserModel, t: TokenModel) -> ParserModel {
    match t.kind {
        KindModel::Marker(name) => {
            let q = finish_current(p);
            ParserModel { blocks: q.blocks, current: Some(spec_marked(name, t.span)), pending: seq![] }
        },
        _ => if in_body(p) && token_is_request_line(t) {
            let q = finish_current(p);
            ParserModel {
                blocks: q.blocks,
                current: Some(builder_push(builder_push_all(spec_unmarked(), p.pending), t)),
                pending: seq![],
            }
        } else if in_body(p) && token_is_prefix(t) {
            ParserModel { blocks: p.blocks, current: p.current, pending: p.pending.push(t) }
        } else {
            let b = match p.current {
                Some(b) => b,
                None => spec_unmarked(),
            };
            ParserModel {
                blocks: p.blocks,
                current: Some(builder_push(builder_push_all(b, p.pending), t)),
                pending: seq![],
            }
        },
    }
}

pub open spec fn initial_parser() -> ParserModel {
    ParserModel { blocks: seq![], current: None, pending: seq![] }
}

/// The parser after all of `ts`.
pub open spec fn parse_tokens(ts: Seq<TokenModel>) -> ParserModel
    decreases ts.len(),
{
    if ts.len() == 0 {
        initial_parser()
    } else {
        shift(parse_tokens(ts.drop_last()), ts.last())
    }
}

/// The request blocks of a token sequence.
pub open spec fn spec_blocks(ts: Seq<TokenModel>) -> Seq<BlockModel> {
    finish_current(parse_tokens(ts)).blocks
}

/// The request blocks of `input`.
pub open spec fn spec_parse(input: Seq<char>) -> Seq<BlockModel> {
    spec_blocks(spec_lex(input))
}

/// Tokens the parser may be fed: never a line number at the top of `usize`.
pub open spec fn token_ok(t: TokenModel) -> bool {
    t.span.start_line < usize::MAX
}

/// Parser states the executable parser keeps.
pub open spec fn parser_wf(p: ParserModel) -> bool {
    &&& forall|j: int| 0 <= j < p.pending.len() ==> token_is_prefix(#[trigger] p.pending[j])
    &&& p.current matches Some(b) ==> (b.marker_line matches Some(m) ==> m < usize::MAX)
}

/// Adding lines keeps a block's name and marker.
pub proof fn lemma_push_all_keeps(b: BuilderModel, ts: Seq<TokenModel>)
    ensures
        builder_push_all(b, ts).name == b.name,
        builder_push_all(b, ts).marker_line == b.marker_line,
    decreases ts.len(),
{
    if ts.len() > 0 {
        lemma_push_all_keeps(b, ts.drop_last());
    }
}

pub proof fn lemma_parse_tokens_wf(ts: Seq<TokenModel>)
    requires
        forall|j: int| 0 <= j < ts.len() ==> token_ok(#[trigger] ts[j]),
    ensures
        parser_wf(parse_tokens(ts)),
    decreases ts.len(),
{
    if ts.len() > 0 {
        lemma_parse_tokens_wf(ts.drop_last());
        let p = parse_tokens(ts.drop_last());
        let t = ts.last();
        assert(token_ok(ts[ts.len() - 1]));
        let q = shift(p, t);
        lemma_push_all_keeps(spec_unmarked(), p.pending);
        if let Some(b) = p.current {
            lemma_push_all_keeps(b, p.pending);
        }
        if !(t.kind is Marker) && !(in_body(p) && token_is_request_line(t)) && in_body(p)
            && token_is_prefix(t) {
            assert forall|j: int| 0 <= j < q.pending.len() implies token_is_prefix(
                #[trigger] q.pending[j],
            ) by {
                if j < p.pending.len() {
                    assert(q.pending[j] == p.pending[j]);
                }
            }
        }
    }
}

struct BlockBuilder {
    name: Option<String>,
    marker_line: Option<usize>,
    start_line: Option<usize>,
    span: Span,
    lines: Vec<ReqLine>,
    state: BlockState,
}

impl View for BlockBuilder {
    type V = BuilderModel;

    closed spec fn view(&self) -> BuilderModel {
        BuilderModel {
            name: opt_view(self.name),
            marker_line: self.marker_line,
            start_line: self.start_line,
            span: self.span,
            lines: lines_view(self.lines@),
            state: self.state,
        }
    }
}

struct DocumentParser {
    blocks: Vec<ReqBlock>,
    current: Option<BlockBuilder>,
    pending_unmarked_prefix: Vec<Token>,
}

impl View for DocumentParser {
    type V = ParserModel;

    closed spec fn view(&self) -> ParserModel {
        ParserModel {
            blocks: blocks_view(self.blocks@),
            current: match self.current {
                Some(b) => Some(b@),
                None => None,
            },
            pending: tokens_view(self.pending_unmarked_prefix@),
        }
    }
}

fn token_is_request_line_exec(token: &Token) -> (b: bool)
    ensures
        b == token_is_request_line(token@),
{
    match token.kind {
        TokenKind::Raw => {
            let v = to_chars(token.text.as_str());
            let (a, b) = trim_bounds(&v, 0, v.len());
            assert(v@.subrange(0, v@.len() as int) =~= v@);
            request_line_at(&v, a, b)
        },
        _ => false,
    }
}

fn token_is_prefix_exec(token: &Token) -> (b: bool)
    ensures
        b == token_is_prefix(token@),
{
    match token.kind {
        TokenKind::Comment | TokenKind::Directive(_) => true,
        _ => false,
    }
}

fn req_line_from_token(token: Token) -> (l: ReqLine)
    requires
        !(token@.kind is Marker),
    ensures
        l@ == line_of_token(token@),
{
    match token.kind {
        TokenKind::Empty => ReqLine::Empty,
        TokenKind::Comment => ReqLine::Comment(token.text),
        TokenKind::Directive(directive) => ReqLine::Directive(directive),
        TokenKind::Raw => ReqLine::Raw(token.text),
        TokenKind::Marker(_) => ReqLine::Empty,
    }
}

impl BlockBuilder {
    fn marked(name: Option<String>, marker_span: Span) -> (b: Self)
        ensures
            b@ == spec_marked(opt_view(name), marker_span),
    {
        let b = Self {
            name,
            marker_line: Some(marker_span.start_line),
            start_line: None,
            span: marker_span,
            lines: Vec::new(),
            state: BlockState::BeforeRequestLine,
        };
        assert(lines_view(b.lines@) =~= Seq::<LineModel>::empty());
        b
    }

    fn unmarked() -> (b: Self)
        ensures
            b@ == spec_unmarked(),
    {
        let b = Self {
            name: None,
            marker_line: None,
            start_line: None,
            span: Span::between(1, 1, 1),
            lines: Vec::new(),
            state: BlockState::BeforeRequestLine,
        };
        assert(lines_view(b.lines@) =~= Seq::<LineModel>::empty());
        b
    }

    fn push(&mut self, token: Token)
        requires
            !(token@.kind is Marker),
        ensures
            final(self)@ == builder_push(old(self)@, token@),
    {
        if self.start_line.is_none() {
            self.start_line = Some(token.span.start_line);
            self.span = token.span;
        } else {
            self.span.end_line = token.span.end_line;
            self.span.end_column = token.span.end_column;
        }
        self.update_state(&token);
        let ghost old_lines = self.lines@;
        let ghost tv = token@;
        self.lines.push(req_line_from_token(token));
        assert(lines_view(self.lines@) =~= lines_view(old_lines).push(line_of_token(tv)));
    }

    fn push_all(&mut self, tokens: Vec<Token>)
        requires
            forall|j: int| 0 <= j < tokens@.len() ==> token_is_prefix(#[trigger] tokens@[j]@),
        ensures
            final(self)@ == builder_push_all(old(self)@, tokens_view(tokens@)),
    {
        broadcast use vstd::std_specs::vec::group_vec_axioms;

        let ghost ts = tokens_view(tokens@);
        let ghost all = tokens@;
        for token in it: tokens
            invariant
                it.seq() == all,
                ts == tokens_view(all),
                forall|j: int| 0 <= j < all.len() ==> token_is_prefix(#[trigger] all[j]@),
                self@ == builder_push_all(old(self)@, ts.take(it.index() as int)),
        {
            let ghost i = it.index() as int;
            assert(all[i]@ == ts[i]);
            self.push(token);
            assert(ts.take(i + 1).drop_last() =~= ts.take(i));
        }
        assert(ts.take(ts.len() as int) =~= ts);
    }

    fn finish(self) -> (r: Option<ReqBlock>)
        requires
            self@.marker_line matches Some(m) ==> m < usize::MAX,
        ensures
            match r {
                Some(blk) => builder_finish(self@) == Some(blk@),
                None => builder_finish(self@) is None,
            },
    {
        let start_line = match self.start_line {
            Some(s) => s,
            None => match self.marker_line {
                Some(m) => m + 1,
                None => {
                    return None;
                },
            },
        };
        let first = match self.marker_line {
            Some(m) => m,
            None => self.span.start_line,
        };
        Some(
            ReqBlock {
                name: self.name,
                marker_line: self.marker_line,
                start_line,
                lines: self.lines,
                span: Span::between(first, self.span.end_line, self.span.end_column),
            },
        )
    }

    fn update_state(&mut self, token: &Token)
        ensures
            final(self)@ == (BuilderModel { state: next_state(old(self)@.state, token@), ..old(self)@ }),
    {
        match self.state {
            BlockState::BeforeRequestLine => {
                if token_is_request_line_exec(token) {
                    self.state = BlockState::InHeaders;
                }
            },
            BlockState::InHeaders => {
                if let TokenKind::Empty = token.kind {
                    self.state = BlockState::InBody;
                }
            },
            BlockState::InBody => {},
        }
    }
}

impl DocumentParser {
    fn in_body(&self) -> (b: bool)
        ensures
            b == in_body(self@),
    {
        match &self.current {
            Some(b) => b.state == BlockState::InBody,
            None => false,
        }
    }

    fn finish_current_block(&mut self)
        requires
            parser_wf(old(self)@),
        ensures
            final(self)@ == finish_current(old(self)@),
    {
        match self.current.take() {
            Some(builder) => {
                let ghost bv = builder@;
                if let Some(block) = builder.finish() {
                    let ghost old_blocks = self.blocks@;
                    self.blocks.push(block);
                    assert(blocks_view(self.blocks@) =~= blocks_view(old_blocks).push(block@));
                }
            },
            None => {},
        }
    }

    fn take_pending(&mut self) -> (tokens: Vec<Token>)
        requires
            parser_wf(old(self)@),
        ensures
            forall|j: int| 0 <= j < tokens@.len() ==> token_is_prefix(#[trigger] tokens@[j]@),
            tokens@ == old(self).pending_unmarked_prefix@,
            final(self).pending_unmarked_prefix@.len() == 0,
            final(self).blocks == old(self).blocks,
            final(self).current == old(self).current,
    {
        let mut tokens = Vec::new();
        std::mem::swap(&mut tokens, &mut self.pending_unmarked_prefix);
        assert(old(self)@.pending == tokens_view(tokens@));
        assert forall|j: int| 0 <= j < tokens@.len() implies token_is_prefix(#[trigger] tokens@[j]@) by {
            assert(tokens_view(tokens@)[j] == tokens@[j]@);
        }
        tokens
    }

    fn shift(&mut self, token: Token)
        requires
            parser_wf(old(self)@),
            token_ok(token@),
        ensures
            final(self)@ == shift(old(self)@, token@),
    {
        let ghost p = self@;
        match token.kind {
            TokenKind::Marker(name) => {
                self.finish_current_block();
                let _ = self.take_pending();
                self.current = Some(BlockBuilder::marked(name, token.span));
                assert(tokens_view(self.pending_unmarked_prefix@) =~= Seq::<TokenModel>::empty());
            },
            _ => {
                if self.in_body() && token_is_request_line_exec(&token) {
                    self.finish_current_block();
                    let prefix = self.take_pending();
                    let mut builder = BlockBuilder::unmarked();
                    builder.push_all(prefix);
                    builder.push(token);
                    self.current = Some(builder);
                    assert(tokens_view(self.pending_unmarked_prefix@) =~= Seq::<TokenModel>::empty());
                } else if self.in_body() && token_is_prefix_exec(&token) {
                    let ghost old_pending = self.pending_unmarked_prefix@;
                    let ghost tv = token@;
                    self.pending_unmarked_prefix.push(token);
                    assert(tokens_view(self.pending_unmarked_prefix@) =~= tokens_view(old_pending).push(
                        tv,
                    ));
                } else {
                    let prefix = self.take_pending();
                    let mut builder = match self.current.take() {
                        Some(b) => b,
                        None => BlockBuilder::unmarked(),
                    };
                    builder.push_all(prefix);
                    builder.push(token);
                    self.current = Some(builder);
                    assert(tokens_view(self.pending_unmarked_prefix@) =~= Seq::<TokenModel>::empty());
                }
            },
        }
    }

    fn new(tokens: Vec<Token>) -> (parser: Self)
        requires
            forall|j: int| 0 <= j < tokens@.len() ==> token_ok(#[trigger] tokens@[j]@),
        ensures
            parser@ == parse_tokens(tokens_view(tokens@)),
            parser_wf(parser@),
    {
        broadcast use vstd::std_specs::vec::group_vec_axioms;

        let mut parser = Self {
            blocks: Vec::new(),
            current: None,
            pending_unmarked_prefix: Vec::new(),
        };
        let ghost ts = tokens_view(tokens@);
        let ghost all = tokens@;
        assert(parser@.blocks =~= Seq::<BlockModel>::empty());
        assert(parser@.pending =~= Seq::<TokenModel>::empty());
        assert(ts.take(0) =~= Seq::<TokenModel>::empty());
        for token in it: tokens
            invariant
                it.seq() == all,
                ts == tokens_view(all),
                forall|j: int| 0 <= j < all.len() ==> token_ok(#[trigger] all[j]@),
                parser@ == parse_tokens(ts.take(it.index() as int)),
                parser_wf(parser@),
        {
            let ghost i = it.index() as int;
            assert(all[i]@ == ts[i]);
            proof {
                assert(ts.take(i + 1).drop_last() =~= ts.take(i));
                assert forall|j: int| 0 <= j < ts.take(i + 1).len() implies token_ok(
                    #[trigger] ts.take(i + 1)[j],
                ) by {
                    assert(all[j]@ == ts[j]);
                }
                lemma_parse_tokens_wf(ts.take(i + 1));
            }
            parser.shift(token);
        }
        assert(ts.take(ts.len() as int) =~= ts);
        parser
    }

    fn parse(self) -> (doc: ReqDocument)
        requires
            parser_wf(self@),
        ensures
            blocks_view(doc.requests@) == finish_current(self@).blocks,
    {
        let mut parser = self;
        parser.finish_current_block();
        ReqDocument { requests: parser.blocks }
    }
}

/// Parses raw `.req` text into the parser AST.
pub fn parse(input: &str) -> (doc: ReqDocument)
    ensures
        blocks_view(doc.requests@) == spec_parse(input@),
{
    crate::text::byte_len(input);
    let tokens = lex(input);
    proof {
        crate::text::lemma_utf8_len_ge_len(input@);
        assert forall|j: int| 0 <= j < tokens@.len() implies token_ok(#[trigger] tokens@[j]@) by {
            assert(tokens_view(tokens@)[j] == tokens@[j]@);
            assert(j < spec_lex(input@).len());
            assert(j < lines(input@).len());
            assert(spec_lex(input@)[j] == spec_lex_line((j + 1) as usize, lines(input@)[j]));
            assert(j + 1 < usize::MAX);
        }
    }
    DocumentParser::new(tokens).parse()
}

/// The block lines that the tokens `ts[lo..hi]` become.
pub open spec fn lines_of(ts: Seq<TokenModel>, lo: int, hi: int) -> Seq<LineModel> {
    ts.subrange(lo, hi).map_values(|t: TokenModel| line_of_token(t))
}

/// Token `j` sits on line `j + 1`, as the lexer numbers them.
pub open spec fn numbered(ts: Seq<TokenModel>) -> bool {
    forall|j: int| 0 <= j < ts.len() ==> (#[trigger] ts[j]).span.start_line == j + 1
}

/// `ts[m - 1]` is a `###` marker that names a block `name`.
pub open spec fn marker_named(ts: Seq<TokenModel>, m: int, name: Option<Seq<char>>) -> bool {
    1 <= m <= ts.len() && ts[m - 1].kind == KindModel::Marker(name)
}

/// First line of a block: its marker, else its first line.
pub open spec fn block_first(b: BlockModel) -> int {
    match b.marker_line {
        Some(m) => m as int,
        None => b.start_line as int,
    }
}

/// Last line of a block (its marker when it has no line).
pub open spec fn block_last(b: BlockModel) -> int {
    b.start_line + b.lines.len() - 1
}

/// `b` holds exactly the consecutive lines `start_line ..= block_last(b)` of
/// the token sequence `ts`; a marked block starts right after its marker,
/// an unmarked one has at least one line and no name.
pub open spec fn block_placed(b: BlockModel, ts: Seq<TokenModel>) -> bool {
    &&& 1 <= b.start_line
    &&& b.start_line - 1 + b.lines.len() <= ts.len()
    &&& b.lines == lines_of(ts, b.start_line - 1, b.start_line - 1 + b.lines.len())
    &&& match b.marker_line {
        Some(m) => m + 1 == b.start_line && marker_named(ts, m as int, b.name),
        None => b.lines.len() > 0 && b.name is None,
    }
}

/// Blocks in order, each after the previous one ends.
pub open spec fn blocks_ordered(bs: Seq<BlockModel>) -> bool {
    forall|k: int| 0 <= k < bs.len() - 1 ==> block_last(#[trigger] bs[k]) < block_first(bs[k + 1])
}

/// A finished block as the builder would give it.
pub open spec fn builder_placed(c: BuilderModel, pending: Seq<TokenModel>, ts: Seq<TokenModel>) -> bool {
    match c.start_line {
        None => {
            &&& c.lines.len() == 0
            &&& pending.len() == 0
            &&& c.state == BlockState::BeforeRequestLine
            &&& c.marker_line matches Some(m) && m == ts.len() && marker_named(ts, m as int, c.name)
        },
        Some(s) => {
            &&& 1 <= s
            &&& c.lines.len() > 0
            &&& s - 1 + c.lines.len() <= ts.len()
            &&& c.lines == lines_of(ts, s - 1, s - 1 + c.lines.len())
            &&& pending == ts.subrange(s - 1 + c.lines.len(), ts.len() as int)
            &&& match c.marker_line {
                Some(m) => m + 1 == s && marker_named(ts, m as int, c.name),
                None => c.name is None,
            }
        },
    }
}

/// What holds of the parser after the tokens `ts`.
pub open spec fn parser_placed(p: ParserModel, ts: Seq<TokenModel>) -> bool {
    &&& forall|k: int| 0 <= k < p.blocks.len() ==> block_placed(#[trigger] p.blocks[k], ts)
    &&& blocks_ordered(p.blocks)
    &&& match p.current {
        None => ts.len() == 0 && p.blocks.len() == 0 && p.pending.len() == 0,
        Some(c) => {
            &&& builder_placed(c, p.pending, ts)
            &&& p.blocks.len() > 0 ==> block_last(p.blocks.last()) < match c.marker_line {
                Some(m) => m as int,
                None => c.start_line.unwrap() as int,
            }
        },
    }
}

pub proof fn lemma_push_all_lines(b: BuilderModel, seg: Seq<TokenModel>)
    ensures
        builder_push_all(b, seg).lines == b.lines + seg.map_values(|t: TokenModel| line_of_token(t)),
        builder_push_all(b, seg).start_line == (if b.start_line is Some {
            b.start_line
        } else if seg.len() > 0 {
            Some(seg[0].span.start_line)
        } else {
            None
        }),
    decreases seg.len(),
{
    if seg.len() > 0 {
        lemma_push_all_lines(b, seg.drop_last());
        assert(seg.map_values(|t: TokenModel| line_of_token(t)) =~= seg.drop_last().map_values(
            |t: TokenModel| line_of_token(t),
        ).push(line_of_token(seg.last())));
        if seg.len() > 1 {
            assert(seg.drop_last()[0] == seg[0]);
        }
    } else {
        assert(b.lines + seg.map_values(|t: TokenModel| line_of_token(t)) =~= b.lines);
    }
}

/// Lines of a token range do not change when tokens are added after it.
pub proof fn lemma_lines_of_extend(ts: Seq<TokenModel>, t: TokenModel, lo: int, hi: int)
    requires
        0 <= lo <= hi <= ts.len(),
    ensures
        lines_of(ts.push(t), lo, hi) == lines_of(ts, lo, hi),
{
    assert(ts.push(t).subrange(lo, hi) =~= ts.subrange(lo, hi));
}

/// Lines of adjacent token ranges concatenate.
pub proof fn lemma_lines_of_concat(ts: Seq<TokenModel>, lo: int, mid: int, hi: int)
    requires
        0 <= lo <= mid <= hi <= ts.len(),
    ensures
        lines_of(ts, lo, hi) == lines_of(ts, lo, mid) + lines_of(ts, mid, hi),
{
    assert(lines_of(ts, lo, hi) =~= lines_of(ts, lo, mid) + lines_of(ts, mid, hi));
}

/// Everything placed against `ts` stays placed when a token is added.
pub proof fn lemma_blocks_placed_extend(bs: Seq<BlockModel>, ts: Seq<TokenModel>, t: TokenModel)
    requires
        forall|k: int| 0 <= k < bs.len() ==> block_placed(#[trigger] bs[k], ts),
    ensures
        forall|k: int| 0 <= k < bs.len() ==> block_placed(#[trigger] bs[k], ts.push(t)),
{
    assert forall|k: int| 0 <= k < bs.len() implies block_placed(#[trigger] bs[k], ts.push(t)) by {
        let b = bs[k];
        lemma_lines_of_extend(ts, t, b.start_line - 1, b.start_line - 1 + b.lines.len());
        if let Some(m) = b.marker_line {
            assert(ts.push(t)[m - 1] == ts[m - 1]);
        }
    }
}

/// Closing a placed current block yields a placed block that ends where the
/// pending tokens begin.
pub proof fn lemma_finish_placed(p: ParserModel, ts: Seq<TokenModel>)
    requires
        parser_placed(p, ts),
        ts.len() < usize::MAX,
        p.current is Some,
    ensures
        ({
            let q = finish_current(p);
            &&& forall|k: int| 0 <= k < q.blocks.len() ==> block_placed(#[trigger] q.blocks[k], ts)
            &&& blocks_ordered(q.blocks)
            &&& q.blocks.len() == p.blocks.len() + 1
            &&& q.blocks.last() == builder_finish(p.current.unwrap()).unwrap()
            &&& block_last(q.blocks.last()) == ts.len() - p.pending.len()
            &&& q.pending == p.pending
        }),
{
    let c = p.current.unwrap();
    let q = finish_current(p);
    let blk = builder_finish(c).unwrap();
    assert(q.blocks == p.blocks.push(blk));
    assert forall|k: int| 0 <= k < q.blocks.len() implies block_placed(#[trigger] q.blocks[k], ts) by {
        if k < p.blocks.len() {
            assert(q.blocks[k] == p.blocks[k]);
        } else {
            assert(q.blocks[k] == blk);
            match c.start_line {
                None => {
                    let m = c.marker_line.unwrap();
                    assert(blk.start_line == m + 1);
                    assert(blk.lines == c.lines);
                    assert(lines_of(ts, m as int, m as int) =~= Seq::<LineModel>::empty());
                    assert(c.lines =~= Seq::<LineModel>::empty());
                    assert(block_placed(blk, ts));
                },
                Some(st) => {
                    assert(blk.start_line == st);
                    assert(blk.lines == c.lines);
                    assert(blk.marker_line == c.marker_line);
                    assert(blk.name == c.name);
                    assert(block_placed(blk, ts));
                },
            }
        }
    }
    assert forall|k: int| 0 <= k < q.blocks.len() - 1 implies block_last(#[trigger] q.blocks[k])
        < block_first(q.blocks[k + 1]) by {
        if k < p.blocks.len() - 1 {
            assert(q.blocks[k] == p.blocks[k]);
            assert(q.blocks[k + 1] == p.blocks[k + 1]);
        } else {
            assert(q.blocks[k] == p.blocks.last());
            assert(q.blocks[k + 1] == blk);
        }
    }
}

pub proof fn lemma_shift_marker(p: ParserModel, ts: Seq<TokenModel>, t: TokenModel)
    requires
        parser_placed(p, ts),
        numbered(ts),
        ts.len() + 1 < usize::MAX,
        t.span.start_line == ts.len() + 1,
        t.kind is Marker,
    ensures
        parser_placed(shift(p, t), ts.push(t)),
{
    let n = ts.len() as int;
    let ts2 = ts.push(t);
    let q = shift(p, t);
    lemma_blocks_placed_extend(p.blocks, ts, t);
    if p.current is Some {
        lemma_finish_placed(p, ts);
        lemma_blocks_placed_extend(finish_current(p).blocks, ts, t);
    }
    let c = q.current.unwrap();
    assert(marker_named(ts2, n + 1, t.kind->Marker_0));
    assert(c.lines =~= Seq::<LineModel>::empty());
}

pub proof fn lemma_shift_split(p: ParserModel, ts: Seq<TokenModel>, t: TokenModel)
    requires
        parser_placed(p, ts),
        numbered(ts),
        ts.len() + 1 < usize::MAX,
        t.span.start_line == ts.len() + 1,
        !(t.kind is Marker),
        in_body(p) && token_is_request_line(t),
    ensures
        parser_placed(shift(p, t), ts.push(t)),
{
    let n = ts.len() as int;
    let ts2 = ts.push(t);
    let q = shift(p, t);
    let c = p.current.unwrap();
    let s = c.start_line.unwrap() as int;
    let first = s - 1 + c.lines.len();
    lemma_finish_placed(p, ts);
    let fin = finish_current(p);
    lemma_blocks_placed_extend(fin.blocks, ts, t);
    lemma_push_all_lines(spec_unmarked(), p.pending);
    lemma_push_all_keeps(spec_unmarked(), p.pending);
    let b1 = builder_push_all(spec_unmarked(), p.pending);
    let nb = builder_push(b1, t);
    assert(q.current == Some(nb));
    assert(p.pending.map_values(|x: TokenModel| line_of_token(x)) == lines_of(ts, first, n));
    assert(spec_unmarked().lines + lines_of(ts, first, n) =~= lines_of(ts, first, n));
    lemma_lines_of_extend(ts, t, first, n);
    lemma_lines_of_concat(ts2, first, n, n + 1);
    assert(ts2.subrange(n, n + 1) =~= seq![t]);
    assert(nb.lines =~= lines_of(ts2, first, n + 1));
    if p.pending.len() > 0 {
        assert(p.pending[0] == ts[first]);
    }
    assert(nb.start_line == Some((first + 1) as usize));
    assert(ts2.subrange(n + 1, n + 1) =~= Seq::<TokenModel>::empty());
}

pub proof fn lemma_shift_prefix(p: ParserModel, ts: Seq<TokenModel>, t: TokenModel)
    requires
        parser_placed(p, ts),
        numbered(ts),
        ts.len() + 1 < usize::MAX,
        t.span.start_line == ts.len() + 1,
        !(t.kind is Marker),
        !(in_body(p) && token_is_request_line(t)),
        in_body(p) && token_is_prefix(t),
    ensures
        parser_placed(shift(p, t), ts.push(t)),
{
    let n = ts.len() as int;
    let ts2 = ts.push(t);
    let q = shift(p, t);
    lemma_blocks_placed_extend(p.blocks, ts, t);
    let c = p.current.unwrap();
    let s = c.start_line.unwrap() as int;
    assert(q.pending =~= ts2.subrange(s - 1 + c.lines.len(), n + 1));
    lemma_lines_of_extend(ts, t, s - 1, s - 1 + c.lines.len());
    if let Some(m) = c.marker_line {
        assert(ts2[m - 1] == ts[m - 1]);
    }
}

pub proof fn lemma_shift_push(p: ParserModel, ts: Seq<TokenModel>, t: TokenModel)
    requires
        parser_placed(p, ts),
        numbered(ts),
        ts.len() + 1 < usize::MAX,
        t.span.start_line == ts.len() + 1,
        !(t.kind is Marker),
        !(in_body(p) && token_is_request_line(t)),
        !(in_body(p) && token_is_prefix(t)),
    ensures
        parser_placed(shift(p, t), ts.push(t)),
{
    let n = ts.len() as int;
    let ts2 = ts.push(t);
    let q = shift(p, t);
    lemma_blocks_placed_extend(p.blocks, ts, t);
    assert(ts2.subrange(n, n + 1) =~= seq![t]);
    assert(ts2.subrange(n + 1, n + 1) =~= Seq::<TokenModel>::empty());
    let b = match p.current {
        Some(b) => b,
        None => spec_unmarked(),
    };
    lemma_push_all_lines(b, p.pending);
    lemma_push_all_keeps(b, p.pending);
    let b1 = builder_push_all(b, p.pending);
    let nb = builder_push(b1, t);
    assert(q.current == Some(nb));
    match b.start_line {
        Some(s) => {
            let s = s as int;
            let first = s - 1 + b.lines.len();
            assert(p.pending.map_values(|x: TokenModel| line_of_token(x)) == lines_of(ts, first, n));
            lemma_lines_of_concat(ts, s - 1, first, n);
            lemma_lines_of_extend(ts, t, s - 1, n);
            lemma_lines_of_concat(ts2, s - 1, n, n + 1);
            assert(nb.lines =~= lines_of(ts2, s - 1, n + 1));
            if let Some(m) = b.marker_line {
                assert(ts2[m - 1] == ts[m - 1]);
            }
        },
        None => {
            assert(p.pending.map_values(|x: TokenModel| line_of_token(x)) =~= Seq::<LineModel>::empty());
            assert(b.lines =~= Seq::<LineModel>::empty());
            assert(nb.lines =~= lines_of(ts2, n, n + 1));
            if let Some(m) = b.marker_line {
                assert(ts2[m - 1] == ts[m - 1]);
            }
        },
    }
}

/// One parser step keeps everything placed.
pub proof fn lemma_shift_placed(p: ParserModel, ts: Seq<TokenModel>, t: TokenModel)
    requires
        parser_placed(p, ts),
        numbered(ts),
        ts.len() + 1 < usize::MAX,
        t.span.start_line == ts.len() + 1,
    ensures
        parser_placed(shift(p, t), ts.push(t)),
{
    if t.kind is Marker {
        lemma_shift_marker(p, ts, t);
    } else if in_body(p) && token_is_request_line(t) {
        lemma_shift_split(p, ts, t);
    } else if in_body(p) && token_is_prefix(t) {
        lemma_shift_prefix(p, ts, t);
    } else {
        lemma_shift_push(p, ts, t);
    }
}

/// The parser state after any numbered token sequence is placed.
pub proof fn lemma_parse_tokens_placed(ts: Seq<TokenModel>)
    requires
        numbered(ts),
        ts.len() < usize::MAX,
    ensures
        parser_placed(parse_tokens(ts), ts),
    decreases ts.len(),
{
    if ts.len() > 0 {
        let init = ts.drop_last();
        assert(numbered(init)) by {
            assert forall|j: int| 0 <= j < init.len() implies (#[trigger] init[j]).span.start_line == j + 1 by {
                assert(init[j] == ts[j]);
            }
        }
        lemma_parse_tokens_placed(init);
        assert(ts[ts.len() - 1].span.start_line == ts.len());
        lemma_shift_placed(parse_tokens(init), init, ts.last());
        assert(init.push(ts.last()) =~= ts);
    }
}

/// The lexer numbers its tokens from 1.
pub proof fn lemma_lex_numbered(input: Seq<char>)
    requires
        utf8_len(input) < usize::MAX,
    ensures
        numbered(spec_lex(input)),
        spec_lex(input).len() == lines(input).len(),
        spec_lex(input).len() < usize::MAX,
        forall|j: int| 0 <= j < spec_lex(input).len() ==> (#[trigger] spec_lex(input)[j]).text == lines(input)[j],
{
    crate::text::lemma_utf8_len_ge_len(input);
    crate::text::lemma_lines_len(input);
    let ts = spec_lex(input);
    assert forall|j: int| 0 <= j < ts.len() implies (#[trigger] ts[j]).span.start_line == j + 1 by {
        assert(ts[j] == spec_lex_line((j + 1) as usize, lines(input)[j]));
    }
    assert forall|j: int| 0 <= j < ts.len() implies (#[trigger] ts[j]).text == lines(input)[j] by {
        assert(ts[j] == spec_lex_line((j + 1) as usize, lines(input)[j]));
    }
}

/// Layout of a parsed document: every block holds consecutive lines of the
/// input, from its `start_line` on, each classified as the lexer classified
/// it; a block with a `###` marker starts on the line after it and carries
/// the marker's name; a block without one has at least one line and no name;
/// and the blocks follow one another in input order without overlapping.
pub proof fn lemma_document_layout(input: Seq<char>)
    requires
        utf8_len(input) < usize::MAX,
    ensures
        forall|k: int| 0 <= k < spec_parse(input).len() ==> block_placed(
            #[trigger] spec_parse(input)[k],
            spec_lex(input),
        ),
        blocks_ordered(spec_parse(input)),
{
    let ts = spec_lex(input);
    lemma_lex_numbered(input);
    lemma_parse_tokens_placed(ts);
    let p = parse_tokens(ts);
    if p.current is Some {
        lemma_finish_placed(p, ts);
    }
}


/// Some block of `bs` was opened by a marker on line `line` named `name`.
pub open spec fn has_marked_block(bs: Seq<BlockModel>, line: usize, name: Option<Seq<char>>) -> bool {
    exists|k: int| 0 <= k < bs.len() && (#[trigger] bs[k]).marker_line == Some(line) && bs[k].name == name
}

/// The marker on `line` named `name` has opened a block of `p`, finished or not.
pub open spec fn marker_found(p: ParserModel, line: usize, name: Option<Seq<char>>) -> bool {
    ||| has_marked_block(p.blocks, line, name)
    ||| (p.current matches Some(c) && c.marker_line == Some(line) && c.name == name)
}

/// Every marker among `ts` has opened a block of `p`.
pub open spec fn markers_kept(p: ParserModel, ts: Seq<TokenModel>) -> bool {
    forall|j: int| 0 <= j < ts.len() ==> ((#[trigger] ts[j]).kind matches KindModel::Marker(name)
        ==> marker_found(p, ts[j].span.start_line, name))
}

proof fn lemma_has_marked_push(bs: Seq<BlockModel>, b: BlockModel, line: usize, name: Option<Seq<char>>)
    requires
        has_marked_block(bs, line, name),
    ensures
        has_marked_block(bs.push(b), line, name),
{
    let k = choose|k: int| 0 <= k < bs.len() && (#[trigger] bs[k]).marker_line == Some(line) && bs[k].name == name;
    assert(bs.push(b)[k] == bs[k]);
}

/// Closing the current block keeps every marker found, now among the blocks.
proof fn lemma_finish_keeps_marker(p: ParserModel, line: usize, name: Option<Seq<char>>)
    requires
        marker_found(p, line, name),
    ensures
        has_marked_block(finish_current(p).blocks, line, name),
{
    match p.current {
        None => {},
        Some(c) => {
            if has_marked_block(p.blocks, line, name) {
                if let Some(blk) = builder_finish(c) {
                    lemma_has_marked_push(p.blocks, blk, line, name);
                }
            } else {
                let blk = builder_finish(c).unwrap();
                let bs = p.blocks.push(blk);
                assert(bs[p.blocks.len() as int] == blk);
            }
        },
    }
}

proof fn lemma_markers_kept(ts: Seq<TokenModel>)
    ensures
        markers_kept(parse_tokens(ts), ts),
    decreases ts.len(),
{
    if ts.len() > 0 {
        let prev = ts.drop_last();
        lemma_markers_kept(prev);
        let p = parse_tokens(prev);
        let t = ts.last();
        let q = parse_tokens(ts);
        assert(q == shift(p, t));
        if let Some(b) = p.current {
            lemma_push_all_keeps(b, p.pending);
        }
        assert forall|j: int| 0 <= j < ts.len() implies ((#[trigger] ts[j]).kind matches KindModel::Marker(name)
            ==> marker_found(q, ts[j].span.start_line, name)) by {
            if let KindModel::Marker(name) = ts[j].kind {
                let line = ts[j].span.start_line;
                if j == ts.len() - 1 {
                    assert(ts[j] == t);
                } else {
                    assert(ts[j] == prev[j]);
                    assert(marker_found(p, line, name));
                    if t.kind is Marker || (in_body(p) && token_is_request_line(t)) {
                        lemma_finish_keeps_marker(p, line, name);
                    }
                }
            }
        }
    }
}

/// Each `###` marker opens a request: for every marker line of the input
/// there is a block that starts after it and carries its name.
pub proof fn lemma_every_marker_opens_block(input: Seq<char>)
    requires
        utf8_len(input) < usize::MAX,
    ensures
        forall|j: int| 0 <= j < spec_lex(input).len() ==> ((#[trigger] spec_lex(input)[j]).kind matches KindModel::Marker(name)
            ==> has_marked_block(spec_parse(input), (j + 1) as usize, name)),
{
    let ts = spec_lex(input);
    lemma_lex_numbered(input);
    lemma_markers_kept(ts);
    assert forall|j: int| 0 <= j < ts.len() implies ((#[trigger] ts[j]).kind matches KindModel::Marker(name)
        ==> has_marked_block(spec_parse(input), (j + 1) as usize, name)) by {
        if let KindModel::Marker(name) = ts[j].kind {
            lemma_finish_keeps_marker(parse_tokens(ts), ts[j].span.start_line, name);
        }
    }
}

/// A block line that is a `METHOD URL` request line.
pub open spec fn line_is_request(l: LineModel) -> bool {
    l matches LineModel::Raw(r) && looks_like_request_line(trim(r))
}

/// Where a block is after its first `j` lines.
pub open spec fn state_after(ls: Seq<LineModel>, j: int) -> BlockState
    decreases j,
{
    if j <= 0 {
        BlockState::BeforeRequestLine
    } else {
        let s = state_after(ls, j - 1);
        match s {
            BlockState::BeforeRequestLine => if line_is_request(ls[j - 1]) {
                BlockState::InHeaders
            } else {
                s
            },
            BlockState::InHeaders => if ls[j - 1] is Empty {
                BlockState::InBody
            } else {
                s
            },
            BlockState::InBody => s,
        }
    }
}

/// No request line among `ls` once the body has begun.
pub open spec fn no_request_in_body(ls: Seq<LineModel>) -> bool {
    forall|j: int| 0 <= j < ls.len() && state_after(ls, j) == BlockState::InBody ==> !line_is_request(#[trigger] ls[j])
}

/// A builder whose state follows its lines and whose body holds no request line.
pub open spec fn builder_split(c: BuilderModel) -> bool {
    &&& c.state == state_after(c.lines, c.lines.len() as int)
    &&& no_request_in_body(c.lines)
}

/// What the parser keeps: finished blocks and the current one hold no
/// request line in their bodies; pending tokens are comments and directives.
pub open spec fn parser_split(p: ParserModel) -> bool {
    &&& forall|k: int| 0 <= k < p.blocks.len() ==> no_request_in_body(#[trigger] p.blocks[k].lines)
    &&& p.current matches Some(c) ==> builder_split(c)
    &&& forall|j: int| 0 <= j < p.pending.len() ==> token_is_prefix(#[trigger] p.pending[j])
}

proof fn lemma_state_after_push(ls: Seq<LineModel>, l: LineModel, j: int)
    requires
        0 <= j <= ls.len(),
    ensures
        state_after(ls.push(l), j) == state_after(ls, j),
    decreases j,
{
    if j > 0 {
        lemma_state_after_push(ls, l, j - 1);
        assert(ls.push(l)[j - 1] == ls[j - 1]);
    }
}

/// Pushing a token keeps a split builder split when, in the body, the token
/// is no request line.
proof fn lemma_push_split(b: BuilderModel, t: TokenModel)
    requires
        builder_split(b),
        !(t.kind is Marker),
        b.state == BlockState::InBody ==> !token_is_request_line(t),
    ensures
        builder_split(builder_push(b, t)),
        token_is_prefix(t) ==> builder_push(b, t).state == b.state,
{
    let c = builder_push(b, t);
    let l = line_of_token(t);
    let n = b.lines.len() as int;
    lemma_state_after_push(b.lines, l, n);
    assert(c.lines == b.lines.push(l));
    assert(c.lines[n] == l);
    assert(line_is_request(l) == token_is_request_line(t));
    assert((l is Empty) == (t.kind is Empty));
    assert(state_after(c.lines, n + 1) == c.state);
    assert forall|j: int| 0 <= j < c.lines.len() && state_after(c.lines, j) == BlockState::InBody implies !line_is_request(
        #[trigger] c.lines[j],
    ) by {
        if j < n {
            lemma_state_after_push(b.lines, l, j);
            assert(c.lines[j] == b.lines[j]);
        }
    }
}

proof fn lemma_push_all_split(b: BuilderModel, ts: Seq<TokenModel>)
    requires
        builder_split(b),
        forall|j: int| 0 <= j < ts.len() ==> token_is_prefix(#[trigger] ts[j]),
    ensures
        builder_split(builder_push_all(b, ts)),
        builder_push_all(b, ts).state == b.state,
    decreases ts.len(),
{
    if ts.len() > 0 {
        assert forall|j: int| 0 <= j < ts.drop_last().len() implies token_is_prefix(#[trigger] ts.drop_last()[j]) by {
            assert(ts.drop_last()[j] == ts[j]);
        }
        lemma_push_all_split(b, ts.drop_last());
        assert(token_is_prefix(ts[ts.len() - 1]));
        lemma_push_split(builder_push_all(b, ts.drop_last()), ts.last());
    }
}

proof fn lemma_finish_split(p: ParserModel)
    requires
        parser_split(p),
    ensures
        forall|k: int| 0 <= k < finish_current(p).blocks.len() ==> no_request_in_body(#[trigger] finish_current(p).blocks[k].lines),
{
    if let Some(c) = p.current {
        if let Some(blk) = builder_finish(c) {
            assert forall|k: int| 0 <= k < p.blocks.push(blk).len() implies no_request_in_body(
                #[trigger] p.blocks.push(blk)[k].lines,
            ) by {
                if k < p.blocks.len() {
                    assert(p.blocks.push(blk)[k] == p.blocks[k]);
                }
            }
        }
    }
}

proof fn lemma_parse_tokens_split(ts: Seq<TokenModel>)
    ensures
        parser_split(parse_tokens(ts)),
    decreases ts.len(),
{
    if ts.len() > 0 {
        lemma_parse_tokens_split(ts.drop_last());
        let p = parse_tokens(ts.drop_last());
        let t = ts.last();
        let q = parse_tokens(ts);
        assert(q == shift(p, t));
        let un = spec_unmarked();
        assert(un.lines =~= Seq::<LineModel>::empty());
        assert(builder_split(un));
        match t.kind {
            KindModel::Marker(name) => {
                lemma_finish_split(p);
                let m = spec_marked(name, t.span);
                assert(builder_split(m));
            },
            _ => {
                if in_body(p) && token_is_request_line(t) {
                    lemma_finish_split(p);
                    lemma_push_all_split(un, p.pending);
                    lemma_push_split(builder_push_all(un, p.pending), t);
                } else if in_body(p) && token_is_prefix(t) {
                    assert forall|j: int| 0 <= j < q.pending.len() implies token_is_prefix(#[trigger] q.pending[j]) by {
                        if j < p.pending.len() {
                            assert(q.pending[j] == p.pending[j]);
                        }
                    }
                } else {
                    let b = match p.current {
                        Some(b) => b,
                        None => un,
                    };
                    lemma_push_all_split(b, p.pending);
                    lemma_push_split(builder_push_all(b, p.pending), t);
                }
            },
        }
    }
}

/// Within a block the body, once begun, holds no request line: a request
/// line that comes after the block's first request line and an empty line
/// following it opens the next block instead.
pub proof fn lemma_request_line_after_body_splits(input: Seq<char>)
    ensures
        forall|b: int, k: int, e: int, j: int|
            0 <= b < spec_parse(input).len() && 0 <= k < e < j < spec_parse(input)[b].lines.len()
                && line_is_request(#[trigger] spec_parse(input)[b].lines[k])
                && #[trigger] spec_parse(input)[b].lines[e] is Empty ==> !line_is_request(
                #[trigger] spec_parse(input)[b].lines[j],
            ),
{
    let ts = spec_lex(input);
    lemma_parse_tokens_split(ts);
    lemma_finish_split(parse_tokens(ts));
    assert forall|b: int, k: int, e: int, j: int|
        0 <= b < spec_parse(input).len() && 0 <= k < e < j < spec_parse(input)[b].lines.len()
            && line_is_request(#[trigger] spec_parse(input)[b].lines[k])
            && #[trigger] spec_parse(input)[b].lines[e] is Empty implies !line_is_request(
            #[trigger] spec_parse(input)[b].lines[j],
        ) by {
        let ls = spec_parse(input)[b].lines;
        assert(no_request_in_body(ls));
        lemma_state_after_request(ls, k);
        lemma_state_after_grows(ls, k + 1, e);
        lemma_state_after_grows(ls, e + 1, j);
    }
}

/// After a request line a block has left `BeforeRequestLine`.
proof fn lemma_state_after_request(ls: Seq<LineModel>, k: int)
    requires
        0 <= k < ls.len(),
        line_is_request(ls[k]),
    ensures
        state_after(ls, k + 1) != BlockState::BeforeRequestLine,
{
}

/// A block's state only moves forward; and after an empty line past the
/// request line it is in the body.
proof fn lemma_state_after_grows(ls: Seq<LineModel>, i: int, j: int)
    requires
        0 <= i <= j <= ls.len(),
    ensures
        state_after(ls, i) != BlockState::BeforeRequestLine ==> state_after(ls, j) != BlockState::BeforeRequestLine,
        state_after(ls, i) == BlockState::InBody ==> state_after(ls, j) == BlockState::InBody,
        i < j && state_after(ls, i) != BlockState::BeforeRequestLine && ls[i] is Empty ==> state_after(ls, j)
            == BlockState::InBody,
    decreases j - i,
{
    if i < j {
        lemma_state_after_grows(ls, i + 1, j);
    }
}

/// Block `b` holds the token of index `j` (line `j + 1`).
pub open spec fn block_covers(b: BlockModel, j: int) -> bool {
    b.start_line - 1 <= j < b.start_line - 1 + b.lines.len()
}

/// Some block of `bs` holds the token of index `j`.
pub open spec fn some_block_covers(bs: Seq<BlockModel>, j: int) -> bool {
    exists|k: int| 0 <= k < bs.len() && block_covers(#[trigger] bs[k], j)
}

/// Lines that a request file cannot do without: not markers, comments or
/// directives.
pub open spec fn token_is_content(t: TokenModel) -> bool {
    !(t.kind is Marker) && !token_is_prefix(t)
}

/// The parser holds the token of index `j`, in a finished block or the current one.
pub open spec fn parser_keeps(p: ParserModel, j: int) -> bool {
    ||| some_block_covers(p.blocks, j)
    ||| (p.current matches Some(c) && c.start_line matches Some(s) && s - 1 <= j < s - 1 + c.lines.len())
}

proof fn lemma_covers_push(bs: Seq<BlockModel>, b: BlockModel, j: int)
    requires
        some_block_covers(bs, j),
    ensures
        some_block_covers(bs.push(b), j),
{
    let k = choose|k: int| 0 <= k < bs.len() && block_covers(#[trigger] bs[k], j);
    assert(bs.push(b)[k] == bs[k]);
}

/// Finishing the current block keeps every token it held, now in a block.
proof fn lemma_finish_keeps(p: ParserModel, j: int)
    requires
        parser_keeps(p, j),
    ensures
        some_block_covers(finish_current(p).blocks, j),
{
    if some_block_covers(p.blocks, j) {
        if let Some(c) = p.current {
            if let Some(blk) = builder_finish(c) {
                lemma_covers_push(p.blocks, blk, j);
            }
        }
    } else {
        let c = p.current.unwrap();
        let blk = builder_finish(c).unwrap();
        assert(p.blocks.push(blk)[p.blocks.len() as int] == blk);
    }
}

#[verifier::spinoff_prover]
#[verifier::rlimit(50)]
proof fn lemma_parse_tokens_keeps(ts: Seq<TokenModel>)
    requires
        numbered(ts),
        ts.len() < usize::MAX,
    ensures
        forall|j: int| 0 <= j < ts.len() && token_is_content(#[trigger] ts[j]) ==> parser_keeps(parse_tokens(ts), j),
    decreases ts.len(),
{
    if ts.len() > 0 {
        let prev = ts.drop_last();
        assert(numbered(prev)) by {
            assert forall|j: int| 0 <= j < prev.len() implies (#[trigger] prev[j]).span.start_line == j + 1 by {
                assert(prev[j] == ts[j]);
            }
        }
        lemma_parse_tokens_keeps(prev);
        lemma_parse_tokens_placed(prev);
        lemma_parse_tokens_placed(ts);
        let p = parse_tokens(prev);
        let t = ts.last();
        let q = parse_tokens(ts);
        assert(q == shift(p, t));
        let un = spec_unmarked();
        lemma_push_all_lines(un, p.pending);
        if let Some(c) = p.current {
            lemma_push_all_lines(c, p.pending);
        }
        assert forall|j: int| 0 <= j < ts.len() && token_is_content(#[trigger] ts[j]) implies parser_keeps(q, j) by {
            if j < prev.len() {
                assert(ts[j] == prev[j]);
                assert(parser_keeps(p, j));
                let finishing = t.kind is Marker || (in_body(p) && token_is_request_line(t));
                if finishing {
                    lemma_finish_keeps(p, j);
                } else if some_block_covers(p.blocks, j) {
                    assert(q.blocks == p.blocks);
                }
            } else {
                assert(ts[j] == t);
                let c = q.current.unwrap();
                assert(c.lines.len() > 0);
                assert(builder_placed(c, q.pending, ts));
                assert(q.pending.len() == 0);
            }
        }
    }
}

/// No content line is lost: every line of the input that is not a `###`
/// marker, a comment or a directive belongs to a request block (and so
/// does, in particular, every request line).
pub proof fn lemma_content_lines_kept(input: Seq<char>)
    requires
        utf8_len(input) < usize::MAX,
    ensures
        forall|j: int| 0 <= j < spec_lex(input).len() && token_is_content(#[trigger] spec_lex(input)[j])
            ==> some_block_covers(spec_parse(input), j),
{
    let ts = spec_lex(input);
    lemma_lex_numbered(input);
    lemma_parse_tokens_keeps(ts);
    assert forall|j: int| 0 <= j < ts.len() && token_is_content(#[trigger] ts[j]) implies some_block_covers(
        spec_parse(input),
        j,
    ) by {
        lemma_finish_keeps(parse_tokens(ts), j);
    }
}

} // verus!
