//! The commands: list the requests of a file, or resolve the selected one to
//! check it, export it or execute it.

use vstd::prelude::*;

use super::args::{CliOptions, Mode};
use super::dto::{
    header_outputs_view, CheckOutput, CurlOutput, ExecutedRequestOutput, ExecutedResponseOutput,
    RequestListOutput, response_output,
};
use crate::req::curl::{method_str, spec_to_curl, to_curl};
use crate::req::error::ParseErrorModel;
use crate::req::listing::{list_requests, spec_list_requests, RequestListing};
use crate::req::lowering::{lemma_parsed_blocks_lowerable, lower_first_request, spec_lower_first_request};
use crate::req::model::{
    headers_view, HttpMethod, ParsedRequest, ParsedRequestModel, Request, RequestModel, Response,
};
use crate::req::parser::ast::blocks_view;
use crate::req::parser::document::spec_parse;
use crate::req::parser::parse;
use crate::req::resolver::{
    empty_context, needs_context, resolve_request, spec_needs_context, spec_resolve_request,
    ContextModel, ResolveContext, ResolveError,
};
use crate::text::{decimal, push_decimal, string_views};
use vstd::string::StringExecFns;

verus! {

/// How a parse error is reported.
pub open spec fn parse_error_text(e: ParseErrorModel) -> Seq<char> {
    "Parse error at "@ + decimal(e.line) + ":"@ + decimal(e.column) + ": "@ + e.message
}

/// The first request of `input`, lowered.
pub open spec fn spec_parse_selected(input: Seq<char>) -> Result<ParsedRequestModel, Seq<char>> {
    match spec_lower_first_request(spec_parse(input)) {
        Ok(p) => Ok(p),
        Err(e) => Err(parse_error_text(e)),
    }
}

/// The name shown for a request.
pub open spec fn request_name(p: ParsedRequestModel) -> Seq<char> {
    match p.name {
        Some(n) => n,
        None => "Untitled request"@,
    }
}

/// The directives of a request as written: groups, then inline variables.
pub open spec fn spec_directives(p: ParsedRequestModel) -> Seq<Seq<char>> {
    p.envs.map_values(|e: Seq<char>| "@env "@ + e) + p.vars.map_values(
        |v: (Seq<char>, Seq<char>)| "@"@ + v.0 + "="@ + v.1,
    )
}

/// Value of the outcome of reading the `--context-json` value, if given.
pub open spec fn context_input_view(c: Option<Result<ResolveContext, ResolveError>>) -> Option<Result<ContextModel, Seq<char>>> {
    match c {
        None => None,
        Some(Ok(ctx)) => Some(Ok(ctx@)),
        Some(Err(e)) => Some(Err(e.message@)),
    }
}

/// The context to resolve with, and a warning to print: without a context
/// value the empty context; with one that failed to parse, the empty context
/// and a warning if the request does not need a context, else the error.
pub open spec fn spec_context_for_request(p: ParsedRequestModel, given: Option<Result<ContextModel, Seq<char>>>) -> Result<(ContextModel, Option<Seq<char>>), Seq<char>> {
    match given {
        None => Ok((empty_context(), None)),
        Some(parsed) => match spec_needs_context(p) {
            Err(e) => Err(e),
            Ok(needed) => match parsed {
                Ok(c) => Ok((c, None)),
                Err(e) => if !needed {
                    Ok((empty_context(), Some("Warning: "@ + e)))
                } else {
                    Err(e)
                },
            },
        },
    }
}

/// A resolved request with what is shown of it.
pub struct ResolvedModel {
    pub name: Seq<char>,
    pub directives: Seq<Seq<char>>,
    pub request: RequestModel,
}

/// Parse, choose the context, resolve: the warning printed on the way and
/// the resolved request or the error message.
pub open spec fn spec_resolve_selected(input: Seq<char>, given: Option<Result<ContextModel, Seq<char>>>) -> (Option<Seq<char>>, Result<ResolvedModel, Seq<char>>) {
    match spec_parse_selected(input) {
        Err(m) => (None, Err(m)),
        Ok(p) => match spec_context_for_request(p, given) {
            Err(m) => (None, Err("Resolve error: "@ + m)),
            Ok((c, w)) => (
                w,
                match spec_resolve_request(p, c) {
                    Err(m) => Err("Resolve error: "@ + m),
                    Ok(r) => Ok(ResolvedModel { name: request_name(p), directives: spec_directives(p), request: r }),
                },
            ),
        },
    }
}

/// A request resolved from the input.
pub struct ResolvedRequest {
    pub name: String,
    pub directives: Vec<String>,
    pub request: Request,
}

/// The context chosen for a request and a warning to print.
pub struct ContextChoice {
    pub context: ResolveContext,
    pub warning: Option<String>,
}

/// What a command printed or is to print.
pub enum CommandOutput {
    RequestList(RequestListOutput),
    Check(CheckOutput),
    Curl(CurlOutput),
    ExecutedResponse(ExecutedResponseOutput),
}

/// What is left of a command: its output, or a request to execute.
pub enum CommandPlan {
    Finished(CommandOutput),
    Execute { request: ExecutedRequestOutput, call: Request },
}

/// The outcome of a command: a warning to print first, then its plan or error.
pub struct CommandRun {
    pub warning: Option<String>,
    pub result: Result<CommandPlan, String>,
}

/// Parses `input` and lowers its first request.
pub fn parse_selected_request(input: &str) -> (r: Result<ParsedRequest, String>)
    ensures
        match r {
            Ok(p) => spec_parse_selected(input@) == Ok::<_, Seq<char>>(p@),
            Err(m) => spec_parse_selected(input@) == Err::<ParsedRequestModel, _>(m@),
        },
{
    crate::text::byte_len(input);
    let document = parse(input);
    proof {
        lemma_parsed_blocks_lowerable(input@);
        if document.requests@.len() > 0 {
            assert(blocks_view(document.requests@)[0] == document.requests@[0]@);
        }
    }
    match lower_first_request(&document) {
        Ok(p) => Ok(p),
        Err(error) => {
            let mut message = "Parse error at ".to_owned();
            push_decimal(&mut message, error.line as u64);
            message.append(":");
            push_decimal(&mut message, error.column as u64);
            message.append(": ");
            message.append(error.message.as_str());
            Err(message)
        },
    }
}

/// The directives of a request, as shown: `@env NAME`, then `@NAME=value`.
pub fn directives_of(parsed: &ParsedRequest) -> (d: Vec<String>)
    ensures
        string_views(d@) == spec_directives(parsed@),
{
    let ghost p = parsed@;
    let mut d: Vec<String> = Vec::new();
    let mut i: usize = 0;
    assert(string_views(d@) =~= p.envs.map_values(|e: Seq<char>| "@env "@ + e).take(0));
    while i < parsed.envs.len()
        invariant
            i <= parsed.envs@.len(),
            p == parsed@,
            string_views(d@) == p.envs.map_values(|e: Seq<char>| "@env "@ + e).take(i as int),
        decreases parsed.envs@.len() - i,
    {
        let mut line = "@env ".to_owned();
        line.append(parsed.envs[i].as_str());
        let ghost before = string_views(d@);
        let ghost lv = line@;
        d.push(line);
        assert(string_views(d@) =~= before.push(lv));
        assert(p.envs.map_values(|e: Seq<char>| "@env "@ + e).take(i + 1) =~= p.envs.map_values(
            |e: Seq<char>| "@env "@ + e,
        ).take(i as int).push(lv));
        i = i + 1;
    }
    let ghost first = p.envs.map_values(|e: Seq<char>| "@env "@ + e);
    assert(first.take(i as int) =~= first);
    let ghost second = p.vars.map_values(|v: (Seq<char>, Seq<char>)| "@"@ + v.0 + "="@ + v.1);
    let mut j: usize = 0;
    assert(first + second.take(0) =~= first);
    while j < parsed.vars.len()
        invariant
            j <= parsed.vars@.len(),
            p == parsed@,
            first == p.envs.map_values(|e: Seq<char>| "@env "@ + e),
            second == p.vars.map_values(|v: (Seq<char>, Seq<char>)| "@"@ + v.0 + "="@ + v.1),
            string_views(d@) == first + second.take(j as int),
        decreases parsed.vars@.len() - j,
    {
        let mut line = "@".to_owned();
        line.append(parsed.vars[j].name.as_str());
        line.append("=");
        line.append(parsed.vars[j].value.as_str());
        let ghost before = string_views(d@);
        let ghost lv = line@;
        d.push(line);
        assert(string_views(d@) =~= before.push(lv));
        assert(p.vars[j as int] == (parsed.vars@[j as int].name@, parsed.vars@[j as int].value@));
        assert(second.take(j + 1) =~= second.take(j as int).push(lv));
        assert(first + second.take(j + 1) =~= (first + second.take(j as int)).push(lv));
        j = j + 1;
    }
    assert(second.take(j as int) =~= second);
    d
}

/// Chooses the context to resolve `parsed` with; `given` is the outcome of
/// reading the `--context-json` value, when one was given.
pub fn context_for_request(parsed: &ParsedRequest, given: Option<Result<ResolveContext, ResolveError>>) -> (r: Result<ContextChoice, ResolveError>)
    ensures
        match r {
            Ok(ch) => spec_context_for_request(parsed@, context_input_view(given)) == Ok::<_, Seq<char>>(
                (ch.context@, opt_view_warning(ch.warning)),
            ),
            Err(e) => spec_context_for_request(parsed@, context_input_view(given)) == Err::<(ContextModel, Option<Seq<char>>), _>(e.message@),
        },
{
    let Some(parsed_context) = given else {
        return Ok(ContextChoice { context: ResolveContext::default(), warning: None });
    };
    let needed = match needs_context(parsed) {
        Ok(b) => b,
        Err(e) => {
            return Err(e);
        },
    };
    match parsed_context {
        Ok(context) => Ok(ContextChoice { context, warning: None }),
        Err(error) => {
            if !needed {
                let mut warning = "Warning: ".to_owned();
                warning.append(error.message.as_str());
                Ok(ContextChoice { context: ResolveContext::default(), warning: Some(warning) })
            } else {
                Err(error)
            }
        },
    }
}

/// Value of an optional warning.
pub open spec fn opt_view_warning(w: Option<String>) -> Option<Seq<char>> {
    crate::req::model::opt_view(w)
}

/// Resolves `parsed` in `context`, with its name and directives.
pub fn resolve_parsed(parsed: ParsedRequest, context: ResolveContext) -> (r: Result<ResolvedRequest, String>)
    ensures
        match r {
            Ok(rr) => spec_resolve_request(parsed@, context@) == Ok::<_, Seq<char>>(rr.request@)
                && rr.name@ == request_name(parsed@) && string_views(rr.directives@) == spec_directives(parsed@),
            Err(m) => spec_resolve_request(parsed@, context@) matches Err(e) && m@ == "Resolve error: "@ + e,
        },
{
    let name = match &parsed.name {
        Some(n) => n.clone(),
        None => "Untitled request".to_owned(),
    };
    let directives = directives_of(&parsed);
    match resolve_request(parsed, context) {
        Ok(request) => Ok(ResolvedRequest { name, directives, request }),
        Err(error) => {
            let mut message = "Resolve error: ".to_owned();
            message.append(error.message.as_str());
            Err(message)
        },
    }
}

/// The view of a resolved request.
pub open spec fn resolved_view(rr: ResolvedRequest) -> ResolvedModel {
    ResolvedModel { name: rr.name@, directives: string_views(rr.directives@), request: rr.request@ }
}

/// Parses `input`, chooses the context and resolves the first request.
pub fn resolve_selected_request(input: &str, given: Option<Result<ResolveContext, ResolveError>>) -> (r: (Option<String>, Result<ResolvedRequest, String>))
    ensures
        spec_resolve_selected(input@, context_input_view(given)).0 == opt_view_warning(r.0),
        match r.1 {
            Ok(rr) => spec_resolve_selected(input@, context_input_view(given)).1 == Ok::<_, Seq<char>>(resolved_view(rr)),
            Err(m) => spec_resolve_selected(input@, context_input_view(given)).1 == Err::<ResolvedModel, _>(m@),
        },
{
    let parsed = match parse_selected_request(input) {
        Ok(p) => p,
        Err(m) => {
            return (None, Err(m));
        },
    };
    let choice = match context_for_request(&parsed, given) {
        Ok(c) => c,
        Err(error) => {
            let mut message = "Resolve error: ".to_owned();
            message.append(error.message.as_str());
            return (None, Err(message));
        },
    };
    let ContextChoice { context, warning } = choice;
    (warning, resolve_parsed(parsed, context))
}

/// The value shown for a method.
fn method_as_string(method: HttpMethod) -> (s: String)
    ensures
        s@ == method_str(method),
{
    match method {
        HttpMethod::Get => "GET".to_owned(),
        HttpMethod::Post => "POST".to_owned(),
        HttpMethod::Put => "PUT".to_owned(),
        HttpMethod::Patch => "PATCH".to_owned(),
        HttpMethod::Delete => "DELETE".to_owned(),
        HttpMethod::Head => "HEAD".to_owned(),
        HttpMethod::Options => "OPTIONS".to_owned(),
    }
}

/// What `run_command` leaves to do for a resolved request in mode `mode`.
pub open spec fn plan_matches(mode: Mode, r: ResolvedModel, plan: CommandPlan) -> bool {
    match mode {
        Mode::Check => plan matches CommandPlan::Finished(CommandOutput::Check(c)) && c.ok,
        Mode::ExportCurl => plan matches CommandPlan::Finished(CommandOutput::Curl(c)) && c.command@
            == spec_to_curl(r.request),
        Mode::Run => plan matches CommandPlan::Execute { request, call } && call@ == r.request
            && request.name@ == r.name && string_views(request.directives@) == r.directives
            && request.method@ == method_str(r.request.method) && request.url@ == r.request.url,
        Mode::ListRequests => false,
    }
}

/// Runs the command that `options` select on `input`. Listing needs no
/// context; the other commands resolve the first request, and executing it
/// is left to the caller as `CommandPlan::Execute`.
pub fn run_command(options: &CliOptions, input: &str, given: Option<Result<ResolveContext, ResolveError>>) -> (r: CommandRun)
    ensures
        options.mode == Mode::ListRequests ==> {
            &&& r.warning is None
            &&& r.result matches Ok(CommandPlan::Finished(CommandOutput::RequestList(l)))
            &&& l.requests@.map_values(|x: RequestListing| x@) == spec_list_requests(input@)
        },
        options.mode != Mode::ListRequests ==> {
            let (w, res) = spec_resolve_selected(input@, context_input_view(given));
            &&& opt_view_warning(r.warning) == w
            &&& match res {
                Err(m) => r.result matches Err(e) && e@ == m,
                Ok(rm) => r.result matches Ok(plan) && plan_matches(options.mode, rm, plan),
            }
        },
{
    if options.mode == Mode::ListRequests {
        return CommandRun {
            warning: None,
            result: Ok(CommandPlan::Finished(CommandOutput::RequestList(RequestListOutput { requests: list_requests(input) }))),
        };
    }
    let (warning, resolved) = resolve_selected_request(input, given);
    let resolved = match resolved {
        Ok(rr) => rr,
        Err(m) => {
            return CommandRun { warning, result: Err(m) };
        },
    };
    let result = match options.mode {
        Mode::Check => Ok(CommandPlan::Finished(CommandOutput::Check(CheckOutput { ok: true }))),
        Mode::ExportCurl => Ok(CommandPlan::Finished(CommandOutput::Curl(CurlOutput { command: to_curl(&resolved.request) }))),
        _ => {
            let ResolvedRequest { name, directives, request } = resolved;
            let method = method_as_string(request.method);
            let url = request.url.clone();
            Ok(CommandPlan::Execute { request: ExecutedRequestOutput { name, directives, method, url }, call: request })
        },
    };
    CommandRun { warning, result }
}

/// The output of an executed request once its response has come.
pub fn executed_output(request: ExecutedRequestOutput, response: Response) -> (out: CommandOutput)
    ensures
        out matches CommandOutput::ExecutedResponse(o) && o.request == request && o.response.status
            == response.status && header_outputs_view(o.response.headers@) == headers_view(response.headers@)
            && o.response.body@ == response.body@,
{
    CommandOutput::ExecutedResponse(ExecutedResponseOutput { request, response: response_output(response) })
}

} // verus!
