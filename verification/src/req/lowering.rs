//! Lowering of a request block into the executable request model.

use vstd::prelude::*;

use super::error::{ParseError, ParseErrorModel};
use super::model::{
    Header, HttpMethod, ParsedRequest, ParsedRequestModel, Request, RequestBody,
    RequestModel, RequestOptions, Variable,
};
use super::parser::ast::{
    blocks_view, BlockModel, Directive, DirectiveModel, LineModel, ReqBlock, ReqDocument, ReqLine,
};
use super::parser::document::{block_placed, lemma_document_layout, lemma_lex_numbered, spec_parse};
use super::curl::method_str;
use super::parser::grammar::{lemma_method_of_method_str, lemma_method_of_names, method_at, method_of};
use super::parser::lexer::spec_lex;
use crate::text::{
    byte_len, find_char, from_chars, index_of_char, join_strings, join_with, lemma_utf8_len_subrange,
    next_word, push_chars, to_chars, trim, trim_bounds, utf8_len, utf8_len_of, words,
};

verus! {

/// Parsed `METHOD URL` request line.
struct RequestLine {
    method: HttpMethod,
    url: String,
}

/// Section of a block that lowering is in.
#[derive(Debug, Clone, Copy, PartialEq, Eq, Structural)]
pub enum LoweringState {
    BeforeRequestLine,
    InHeaders,
    InBody,
}

/// What lowering has gathered after some lines of a block.
pub struct LowerModel {
    pub state: LoweringState,
    pub request_line: Option<(HttpMethod, Seq<char>)>,
    pub envs: Seq<Seq<char>>,
    pub vars: Seq<(Seq<char>, Seq<char>)>,
    pub headers: Seq<(Seq<char>, Seq<char>)>,
    pub body: Seq<Seq<char>>,
}

pub open spec fn perr(message: Seq<char>, line: nat, column: nat) -> ParseErrorModel {
    ParseErrorModel { message, line, column }
}

/// The `METHOD URL` line `raw` on line `n`: exactly two words, a supported
/// method and the URL. Columns count UTF-8 bytes.
pub open spec fn spec_request_line(raw: Seq<char>, n: nat) -> Result<(HttpMethod, Seq<char>), ParseErrorModel> {
    let w = words(raw);
    if w.len() == 0 {
        Err(perr("Missing method"@, n, 1))
    } else if w.len() == 1 {
        Err(perr("Missing url"@, n, utf8_len(w[0]) + 2))
    } else if w.len() > 2 {
        Err(perr("Invalid request line"@, n, utf8_len(w[0]) + utf8_len(w[1]) + 3))
    } else {
        match method_of(w[0]) {
            None => Err(perr("Unsupported method: "@ + w[0], n, 1)),
            Some(m) => Ok((m, w[1])),
        }
    }
}

/// The `Name: value` line `raw` on line `n`, split at its first `:` and trimmed.
pub open spec fn spec_header(raw: Seq<char>, n: nat) -> Result<(Seq<char>, Seq<char>), ParseErrorModel> {
    match index_of_char(raw, ':') {
        None => Err(perr("Invalid header"@, n, 1)),
        Some(i) => {
            let name = trim(raw.take(i as int));
            let value = trim(raw.skip(i + 1int));
            if name.len() == 0 {
                Err(perr("Missing header name"@, n, 1))
            } else {
                Ok((name, value))
            }
        },
    }
}

pub open spec fn misplaced_directive(n: nat) -> ParseErrorModel {
    perr("Directive must appear before request line"@, n, 1)
}

pub open spec fn initial_lowering() -> LowerModel {
    LowerModel {
        state: LoweringState::BeforeRequestLine,
        request_line: None,
        envs: seq![],
        vars: seq![],
        headers: seq![],
        body: seq![],
    }
}

/// One line, numbered `n`: before the request line comments and empty lines
/// are skipped and directives collected; the first raw line is the request
/// line; then headers up to the first empty line; then the body, where every
/// line but a directive is kept verbatim.
pub open spec fn lower_step(a: LowerModel, line: LineModel, n: nat) -> Result<LowerModel, ParseErrorModel> {
    match a.state {
        LoweringState::BeforeRequestLine => match line {
            LineModel::Directive(DirectiveModel::Env(e)) => Ok(LowerModel { envs: a.envs.push(e), ..a }),
            LineModel::Directive(DirectiveModel::Variable(name, value)) => Ok(
                LowerModel { vars: a.vars.push((name, value)), ..a },
            ),
            LineModel::Raw(raw) => match spec_request_line(raw, n) {
                Err(e) => Err(e),
                Ok(rl) => Ok(
                    LowerModel { state: LoweringState::InHeaders, request_line: Some(rl), ..a },
                ),
            },
            _ => Ok(a),
        },
        LoweringState::InHeaders => match line {
            LineModel::Comment(_) => Ok(a),
            LineModel::Empty => Ok(LowerModel { state: LoweringState::InBody, ..a }),
            LineModel::Raw(raw) => match spec_header(raw, n) {
                Err(e) => Err(e),
                Ok(h) => Ok(LowerModel { headers: a.headers.push(h), ..a }),
            },
            LineModel::Directive(_) => Err(misplaced_directive(n)),
        },
        LoweringState::InBody => match line {
            LineModel::Comment(raw) => Ok(LowerModel { body: a.body.push(raw), ..a }),
            LineModel::Empty => Ok(LowerModel { body: a.body.push(seq![]), ..a }),
            LineModel::Raw(raw) => Ok(LowerModel { body: a.body.push(raw), ..a }),
            LineModel::Directive(_) => Err(misplaced_directive(n)),
        },
    }
}

/// Lowering of the first `k` lines of a block that starts on line `start`;
/// the first error stops it.
pub open spec fn lower_lines(lines: Seq<LineModel>, start: nat, k: nat) -> Result<LowerModel, ParseErrorModel>
    decreases k,
{
    if k == 0 {
        Ok(initial_lowering())
    } else {
        match lower_lines(lines, start, (k - 1) as nat) {
            Err(e) => Err(e),
            Ok(a) => lower_step(a, lines[k - 1], (start + k - 1) as nat),
        }
    }
}

/// Once lowering fails, more lines do not change the error.
pub proof fn lemma_lower_lines_err(lines: Seq<LineModel>, start: nat, k: nat, k2: nat)
    requires
        k <= k2,
        lower_lines(lines, start, k) is Err,
    ensures
        lower_lines(lines, start, k2) == lower_lines(lines, start, k),
    decreases k2 - k,
{
    if k2 > k {
        lemma_lower_lines_err(lines, start, k, (k2 - 1) as nat);
    }
}

/// The request a block lowers to, or the first error in it.
pub open spec fn spec_lower_request(b: BlockModel) -> Result<ParsedRequestModel, ParseErrorModel> {
    match lower_lines(b.lines, b.start_line as nat, b.lines.len()) {
        Err(e) => Err(e),
        Ok(a) => match a.request_line {
            None => Err(perr("Missing request line"@, b.start_line as nat, 1)),
            Some((method, url)) => Ok(
                ParsedRequestModel {
                    name: b.name,
                    envs: a.envs,
                    vars: a.vars,
                    request: RequestModel {
                        method,
                        url,
                        headers: a.headers,
                        body: if a.body.len() == 0 {
                            None
                        } else {
                            Some(join_with(a.body, "\n"@))
                        },
                        timeout_ms: None,
                    },
                },
            ),
        },
    }
}

/// Blocks whose line numbers fit in `usize`.
pub open spec fn lowerable(b: BlockModel) -> bool {
    b.lines.len() == 0 || b.start_line + b.lines.len() - 1 <= usize::MAX
}

/// The request of the first block of a document.
pub open spec fn spec_lower_first_request(blocks: Seq<BlockModel>) -> Result<ParsedRequestModel, ParseErrorModel> {
    if blocks.len() == 0 {
        Err(perr("Empty request"@, 1, 1))
    } else {
        spec_lower_request(blocks[0])
    }
}

fn error(message: String, line: usize, column: usize) -> (e: ParseError)
    ensures
        e@ == perr(message@, line as nat, column as nat),
{
    ParseError { message, line, column }
}

fn invalid_directive_position(line_number: usize) -> (e: ParseError)
    ensures
        e@ == misplaced_directive(line_number as nat),
{
    error("Directive must appear before request line".to_owned(), line_number, 1)
}

fn parse_request_line(line: &String, line_number: usize) -> (r: Result<RequestLine, ParseError>)
    ensures
        match r {
            Ok(rl) => spec_request_line(line@, line_number as nat) == Ok::<_, ParseErrorModel>((rl.method, rl.url@)),
            Err(e) => spec_request_line(line@, line_number as nat) == Err::<(HttpMethod, Seq<char>), _>(e@),
        },
{
    byte_len(line.as_str());
    let v = to_chars(line.as_str());
    let n = v.len();
    assert(v@.subrange(0, n as int) =~= v@);
    let Some((a0, b0)) = next_word(&v, 0, n) else {
        return Err(error("Missing method".to_owned(), line_number, 1));
    };
    proof {
        lemma_utf8_len_subrange(v@, a0 as int, b0 as int);
    }
    let Some((a1, b1)) = next_word(&v, b0, n) else {
        let len0 = utf8_len_of(&v, a0, b0);
        return Err(error("Missing url".to_owned(), line_number, len0 + 2));
    };
    if next_word(&v, b1, n).is_some() {
        proof {
            lemma_utf8_len_subrange(v@, 0, a1 as int);
            lemma_utf8_len_subrange(v@.subrange(0, a1 as int), a0 as int, b0 as int);
            assert(v@.subrange(0, a1 as int).subrange(a0 as int, b0 as int) =~= v@.subrange(a0 as int, b0 as int));
            lemma_utf8_len_subrange(v@, a1 as int, b1 as int);
        }
        let len0 = utf8_len_of(&v, a0, b0);
        let len1 = utf8_len_of(&v, a1, b1);
        return Err(error("Invalid request line".to_owned(), line_number, len0 + len1 + 3));
    }
    match method_at(&v, a0, b0) {
        Some(method) => Ok(RequestLine { method, url: from_chars(&v, a1, b1) }),
        None => {
            let mut message = "Unsupported method: ".to_owned();
            push_chars(&mut message, &v, a0, b0);
            Err(error(message, line_number, 1))
        },
    }
}

fn parse_header(line: &String, line_number: usize) -> (r: Result<Header, ParseError>)
    ensures
        match r {
            Ok(h) => spec_header(line@, line_number as nat) == Ok::<_, ParseErrorModel>(h@),
            Err(e) => spec_header(line@, line_number as nat) == Err::<(Seq<char>, Seq<char>), _>(e@),
        },
{
    let v = to_chars(line.as_str());
    let n = v.len();
    assert(v@.subrange(0, n as int) =~= v@);
    let Some(i) = find_char(&v, 0, n, ':') else {
        return Err(error("Invalid header".to_owned(), line_number, 1));
    };
    assert(v@.take(i as int) =~= v@.subrange(0, i as int));
    assert(v@.skip(i + 1) =~= v@.subrange(i + 1, n as int));
    let (na, nb) = trim_bounds(&v, 0, i);
    let (va, vb) = trim_bounds(&v, i + 1, n);
    if na == nb {
        return Err(error("Missing header name".to_owned(), line_number, 1));
    }
    Ok(Header { name: from_chars(&v, na, nb), value: from_chars(&v, va, vb) })
}

/// Converts a parser AST request block into the executable request model.
pub fn lower_request(block: &ReqBlock) -> (r: Result<ParsedRequest, ParseError>)
    requires
        lowerable(block@),
    ensures
        match r {
            Ok(p) => spec_lower_request(block@) == Ok::<_, ParseErrorModel>(p@),
            Err(e) => spec_lower_request(block@) == Err::<ParsedRequestModel, _>(e@),
        },
{
    let ghost lines = block@.lines;
    let ghost start = block.start_line as nat;
    let mut state = LoweringState::BeforeRequestLine;
    let mut request_line: Option<RequestLine> = None;
    let mut envs: Vec<String> = Vec::new();
    let mut vars: Vec<Variable> = Vec::new();
    let mut headers: Vec<Header> = Vec::new();
    let mut body_lines: Vec<String> = Vec::new();
    let mut index: usize = 0;
    assert(envs@.map_values(|s: String| s@) =~= Seq::<Seq<char>>::empty());
    assert(vars@.map_values(|x: Variable| x@) =~= Seq::<(Seq<char>, Seq<char>)>::empty());
    assert(headers@.map_values(|x: Header| x@) =~= Seq::<(Seq<char>, Seq<char>)>::empty());
    assert(body_lines@.map_values(|s: String| s@) =~= Seq::<Seq<char>>::empty());
    while index < block.lines.len()
        invariant
            lowerable(block@),
            lines == block@.lines,
            start == block.start_line as nat,
            index <= block.lines@.len(),
            lower_lines(lines, start, index as nat) == Ok::<_, ParseErrorModel>(
                LowerModel {
                    state,
                    request_line: match request_line {
                        Some(rl) => Some((rl.method, rl.url@)),
                        None => None,
                    },
                    envs: envs@.map_values(|s: String| s@),
                    vars: vars@.map_values(|x: Variable| x@),
                    headers: headers@.map_values(|x: Header| x@),
                    body: body_lines@.map_values(|s: String| s@),
                },
            ),
        decreases block.lines@.len() - index,
    {
        let line_number = block.start_line + index;
        let line = &block.lines[index];
        assert(lines[index as int] == line@);
        let ghost g_envs = envs@;
        let ghost g_vars = vars@;
        let ghost g_headers = headers@;
        let ghost g_body = body_lines@;
        match state {
            LoweringState::BeforeRequestLine => match line {
                ReqLine::Empty | ReqLine::Comment(_) => {},
                ReqLine::Directive(Directive::Env(env)) => {
                    envs.push(env.clone());
                    assert(envs@.map_values(|s: String| s@) =~= g_envs.map_values(|s: String| s@).push(env@));
                },
                ReqLine::Directive(Directive::Variable { name, value }) => {
                    let var = Variable { name: name.clone(), value: value.clone() };
                    vars.push(var);
                    assert(vars@.map_values(|x: Variable| x@) =~= g_vars.map_values(|x: Variable| x@).push((name@, value@)));
                },
                ReqLine::Raw(raw) => {
                    match parse_request_line(raw, line_number) {
                        Ok(rl) => {
                            request_line = Some(rl);
                            state = LoweringState::InHeaders;
                        },
                        Err(e) => {
                            proof {
                                lemma_lower_lines_err(lines, start, (index + 1) as nat, lines.len());
                            }
                            return Err(e);
                        },
                    }
                },
            },
            LoweringState::InHeaders => match line {
                ReqLine::Comment(_) => {},
                ReqLine::Empty => {
                    state = LoweringState::InBody;
                },
                ReqLine::Raw(raw) => {
                    match parse_header(raw, line_number) {
                        Ok(h) => {
                            let ghost hv = h@;
                            headers.push(h);
                            assert(headers@.map_values(|x: Header| x@) =~= g_headers.map_values(|x: Header| x@).push(hv));
                        },
                        Err(e) => {
                            proof {
                                lemma_lower_lines_err(lines, start, (index + 1) as nat, lines.len());
                            }
                            return Err(e);
                        },
                    }
                },
                ReqLine::Directive(_) => {
                    proof {
                        lemma_lower_lines_err(lines, start, (index + 1) as nat, lines.len());
                    }
                    return Err(invalid_directive_position(line_number));
                },
            },
            LoweringState::InBody => match line {
                ReqLine::Comment(raw) => {
                    body_lines.push(raw.clone());
                    assert(body_lines@.map_values(|s: String| s@) =~= g_body.map_values(|s: String| s@).push(raw@));
                },
                ReqLine::Empty => {
                    body_lines.push(String::new());
                    assert(body_lines@.map_values(|s: String| s@) =~= g_body.map_values(|s: String| s@).push(seq![]));
                },
                ReqLine::Raw(raw) => {
                    body_lines.push(raw.clone());
                    assert(body_lines@.map_values(|s: String| s@) =~= g_body.map_values(|s: String| s@).push(raw@));
                },
                ReqLine::Directive(_) => {
                    proof {
                        lemma_lower_lines_err(lines, start, (index + 1) as nat, lines.len());
                    }
                    return Err(invalid_directive_position(line_number));
                },
            },
        }
        index = index + 1;
    }
    let Some(rl) = request_line else {
        return Err(error("Missing request line".to_owned(), block.start_line, 1));
    };
    let body = if body_lines.len() == 0 {
        None
    } else {
        Some(RequestBody::Raw(join_strings(&body_lines, "\n")))
    };
    let name = match &block.name {
        Some(n) => Some(n.clone()),
        None => None,
    };
    Ok(
        ParsedRequest {
            name,
            envs,
            vars,
            request: Request {
                method: rl.method,
                url: rl.url,
                headers,
                body,
                options: RequestOptions::default(),
            },
        },
    )
}

/// Converts the first request block in a parsed document into the executable model.
pub fn lower_first_request(document: &ReqDocument) -> (r: Result<ParsedRequest, ParseError>)
    requires
        document.requests@.len() > 0 ==> lowerable(document.requests@[0]@),
    ensures
        match r {
            Ok(p) => spec_lower_first_request(blocks_view(document.requests@)) == Ok::<_, ParseErrorModel>(p@),
            Err(e) => spec_lower_first_request(blocks_view(document.requests@)) == Err::<ParsedRequestModel, _>(e@),
        },
{
    if document.requests.len() == 0 {
        return Err(error("Empty request".to_owned(), 1, 1));
    }
    assert(blocks_view(document.requests@)[0] == document.requests@[0]@);
    lower_request(&document.requests[0])
}

/// Every block of a document that fits in memory can be lowered.
pub proof fn lemma_parsed_blocks_lowerable(input: Seq<char>)
    requires
        utf8_len(input) <= isize::MAX,
    ensures
        forall|k: int| 0 <= k < spec_parse(input).len() ==> lowerable(#[trigger] spec_parse(input)[k]),
{
    lemma_document_layout(input);
    lemma_lex_numbered(input);
    let ts = spec_lex(input);
    assert forall|k: int| 0 <= k < spec_parse(input).len() implies lowerable(#[trigger] spec_parse(input)[k]) by {
        assert(block_placed(spec_parse(input)[k], ts));
    }
}

/// Index of the first raw line among the first `n` lines.
pub open spec fn first_raw_before(ls: Seq<LineModel>, n: int) -> Option<int>
    decreases n,
{
    if n <= 0 {
        None
    } else {
        match first_raw_before(ls, n - 1) {
            Some(k) => Some(k),
            None => if ls[n - 1] is Raw {
                Some(n - 1)
            } else {
                None
            },
        }
    }
}

/// Index of the first empty line among lines `lo .. n`.
pub open spec fn first_empty_between(ls: Seq<LineModel>, lo: int, n: int) -> Option<int>
    decreases n - lo,
{
    if n <= lo {
        None
    } else {
        match first_empty_between(ls, lo, n - 1) {
            Some(e) => Some(e),
            None => if ls[n - 1] is Empty {
                Some(n - 1)
            } else {
                None
            },
        }
    }
}

/// The groups selected by the first `n` lines.
pub open spec fn envs_before(ls: Seq<LineModel>, n: int) -> Seq<Seq<char>>
    decreases n,
{
    if n <= 0 {
        seq![]
    } else {
        match ls[n - 1] {
            LineModel::Directive(DirectiveModel::Env(e)) => envs_before(ls, n - 1).push(e),
            _ => envs_before(ls, n - 1),
        }
    }
}

/// The inline variables defined by the first `n` lines.
pub open spec fn vars_before(ls: Seq<LineModel>, n: int) -> Seq<(Seq<char>, Seq<char>)>
    decreases n,
{
    if n <= 0 {
        seq![]
    } else {
        match ls[n - 1] {
            LineModel::Directive(DirectiveModel::Variable(name, value)) => vars_before(ls, n - 1).push((name, value)),
            _ => vars_before(ls, n - 1),
        }
    }
}

/// A body line as written (an empty line is empty).
pub open spec fn body_text(l: LineModel) -> Seq<char> {
    match l {
        LineModel::Comment(r) => r,
        LineModel::Raw(r) => r,
        _ => seq![],
    }
}

/// The texts of lines `lo .. n`.
pub open spec fn texts_between(ls: Seq<LineModel>, lo: int, n: int) -> Seq<Seq<char>>
    decreases n - lo,
{
    if n <= lo {
        seq![]
    } else {
        texts_between(ls, lo, n - 1).push(body_text(ls[n - 1]))
    }
}

/// The headers of the raw lines `lo .. n` of a block starting on line
/// `start`; other lines are skipped.
pub open spec fn headers_between(ls: Seq<LineModel>, start: nat, lo: int, n: int) -> Seq<(Seq<char>, Seq<char>)>
    decreases n - lo,
{
    if n <= lo {
        seq![]
    } else {
        let prev = headers_between(ls, start, lo, n - 1);
        match ls[n - 1] {
            LineModel::Raw(raw) => match spec_header(raw, (start + n - 1) as nat) {
                Ok(h) => prev.push(h),
                Err(_) => prev,
            },
            _ => prev,
        }
    }
}

/// What lowering has gathered after `n` lines, by section.
pub open spec fn lowered_shape(ls: Seq<LineModel>, start: nat, n: int, a: LowerModel) -> bool {
    match first_raw_before(ls, n) {
        None => {
            &&& a.state == LoweringState::BeforeRequestLine
            &&& a.request_line is None
            &&& a.envs == envs_before(ls, n)
            &&& a.vars == vars_before(ls, n)
            &&& a.headers.len() == 0
            &&& a.body.len() == 0
        },
        Some(k) => {
            &&& 0 <= k < n
            &&& a.envs == envs_before(ls, k)
            &&& a.vars == vars_before(ls, k)
            &&& ls[k] matches LineModel::Raw(raw) && spec_request_line(raw, (start + k) as nat) == Ok::<_, ParseErrorModel>(a.request_line.unwrap())
            &&& a.request_line is Some
            &&& forall|m: int| k < m < n ==> !(#[trigger] ls[m] is Directive)
            &&& match first_empty_between(ls, k + 1, n) {
                None => {
                    &&& a.state == LoweringState::InHeaders
                    &&& a.headers == headers_between(ls, start, k + 1, n)
                    &&& a.body.len() == 0
                },
                Some(e) => {
                    &&& k < e < n
                    &&& a.state == LoweringState::InBody
                    &&& a.headers == headers_between(ls, start, k + 1, e)
                    &&& a.body == texts_between(ls, e + 1, n)
                },
            }
        },
    }
}

pub proof fn lemma_lower_lines_shape(ls: Seq<LineModel>, start: nat, n: nat)
    requires
        n <= ls.len(),
        lower_lines(ls, start, n) is Ok,
    ensures
        lowered_shape(ls, start, n as int, lower_lines(ls, start, n)->Ok_0),
    decreases n,
{
    if n > 0 {
        let m = (n - 1) as nat;
        lemma_lower_lines_shape(ls, start, m);
        let a = lower_lines(ls, start, m)->Ok_0;
        let l = ls[m as int];
        assert(lower_lines(ls, start, n) == lower_step(a, l, (start + m) as nat));
        let b = lower_lines(ls, start, n)->Ok_0;
        assert(envs_before(ls, n as int) == match l {
            LineModel::Directive(DirectiveModel::Env(e)) => envs_before(ls, m as int).push(e),
            _ => envs_before(ls, m as int),
        });
        assert(vars_before(ls, n as int) == match l {
            LineModel::Directive(DirectiveModel::Variable(name, value)) => vars_before(ls, m as int).push((name, value)),
            _ => vars_before(ls, m as int),
        });
        match first_raw_before(ls, m as int) {
            None => {
                if l is Raw {
                    assert(first_raw_before(ls, n as int) == Some(m as int));
                    assert(first_empty_between(ls, m + 1int, n as int) is None);
                    assert(headers_between(ls, start, m + 1int, n as int) =~= Seq::<(Seq<char>, Seq<char>)>::empty());
                    assert(b.headers =~= Seq::<(Seq<char>, Seq<char>)>::empty());
                } else {
                    assert(first_raw_before(ls, n as int) is None);
                }
            },
            Some(k) => {
                assert(first_raw_before(ls, n as int) == Some(k));
                match first_empty_between(ls, k + 1, m as int) {
                    None => {
                        assert(a.state == LoweringState::InHeaders);
                        assert(!(l is Directive));
                        if l is Empty {
                            assert(first_empty_between(ls, k + 1, n as int) == Some(m as int));
                            assert(texts_between(ls, m + 1int, n as int) =~= Seq::<Seq<char>>::empty());
                            assert(b.body =~= Seq::<Seq<char>>::empty());
                        } else {
                            assert(first_empty_between(ls, k + 1, n as int) is None);
                            if let LineModel::Raw(raw) = l {
                                let h = spec_header(raw, (start + m) as nat)->Ok_0;
                                assert(b.headers == a.headers.push(h));
                                assert(headers_between(ls, start, k + 1, n as int) == headers_between(ls, start, k + 1, m as int).push(h));
                            } else {
                                assert(b.headers == a.headers);
                            }
                        }
                    },
                    Some(e) => {
                        assert(a.state == LoweringState::InBody);
                        assert(!(l is Directive));
                        assert(first_empty_between(ls, k + 1, n as int) == Some(e));
                        assert(texts_between(ls, e + 1, n as int) == texts_between(ls, e + 1, m as int).push(body_text(l)));
                        assert(b.body == a.body.push(body_text(l)));
                    },
                }
            },
        }
    }
}

/// A request line is exactly two words, a method's name and the URL: the
/// line is accepted as method `m` and URL `u` exactly when its words are the
/// name of `m` and `u`.
pub proof fn lemma_request_line_words(raw: Seq<char>, n: nat)
    ensures
        spec_request_line(raw, n) matches Ok((m, u)) ==> words(raw) == seq![method_str(m), u],
        forall|m: HttpMethod, u: Seq<char>|
            words(raw) == seq![method_str(m), u] ==> #[trigger] spec_request_line(raw, n) == Ok::<_, ParseErrorModel>((m, u)),
{
    let w = words(raw);
    if w.len() == 2 {
        lemma_method_of_names(w[0]);
    }
    assert forall|m: HttpMethod, u: Seq<char>|
        words(raw) == seq![method_str(m), u] implies #[trigger] spec_request_line(raw, n) == Ok::<_, ParseErrorModel>((m, u)) by {
        lemma_method_of_method_str(m);
        assert(w[0] == method_str(m));
    }
}

/// The sections of a request block, as the format describes them: the
/// first raw line is the request line, whose words are the method's name
/// and the URL; the groups and inline variables are
/// the directives before it, in order, and no directive comes after it; the
/// headers are the raw lines between the request line and the first empty
/// line after it, comments skipped; the body is every line after that empty
/// line, joined by line breaks, and there is no body when no line follows.
pub proof fn lemma_lowering_sections(b: BlockModel)
    requires
        spec_lower_request(b) is Ok,
    ensures
        ({
            let r = spec_lower_request(b)->Ok_0;
            let ls = b.lines;
            let n = ls.len() as int;
            &&& first_raw_before(ls, n) matches Some(k)
            &&& r.envs == envs_before(ls, k)
            &&& r.vars == vars_before(ls, k)
            &&& ls[k] matches LineModel::Raw(raw) && spec_request_line(raw, (b.start_line + k) as nat)
                == Ok::<_, ParseErrorModel>((r.request.method, r.request.url))
            &&& ls[k] matches LineModel::Raw(raw) && words(raw) == seq![method_str(r.request.method), r.request.url]
            &&& forall|m: int| k < m < n ==> !(#[trigger] ls[m] is Directive)
            &&& r.request.headers == headers_between(ls, b.start_line as nat, k + 1, match first_empty_between(ls, k + 1, n) {
                None => n,
                Some(e) => e,
            })
            &&& r.request.body == match first_empty_between(ls, k + 1, n) {
                None => None,
                Some(e) => if e + 1 == n {
                    None
                } else {
                    Some(join_with(texts_between(ls, e + 1, n), "\n"@))
                },
            }
        }),
{
    let ls = b.lines;
    let n = ls.len();
    lemma_lower_lines_shape(ls, b.start_line as nat, n);
    let a = lower_lines(ls, b.start_line as nat, n)->Ok_0;
    if let Some(k) = first_raw_before(ls, n as int) {
        if let LineModel::Raw(raw) = ls[k] {
            lemma_request_line_words(raw, (b.start_line + k) as nat);
        }
        if let Some(e) = first_empty_between(ls, k + 1, n as int) {
            lemma_texts_between_len(ls, e + 1, n as int);
        }
    }
}

pub proof fn lemma_texts_between_len(ls: Seq<LineModel>, lo: int, n: int)
    ensures
        texts_between(ls, lo, n).len() == if n <= lo { 0 } else { n - lo },
    decreases n - lo,
{
    if n > lo {
        lemma_texts_between_len(ls, lo, n - 1);
    }
}

} // verus!
