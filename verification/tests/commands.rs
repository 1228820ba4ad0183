use req_core::cli::args::{parse_args, CliOptions, Mode, OutputFormat};
use req_core::cli::commands::{
    context_for_request, directives_of, executed_output, parse_selected_request, run_command,
    CommandOutput, CommandPlan,
};
use req_core::cli::dto::{
    CheckOutput, CurlOutput, ExecutedRequestOutput, ExecutedResponseOutput, HeaderOutput,
    RequestListOutput, ResponseOutput,
};
use req_core::cli::output::render_text;
use req_core::http::client::request_error;
use req_core::req::listing::RequestListing;
use req_core::req::model::{Header, HttpMethod, Response};
use req_core::req::resolver::{ResolveContext, ResolveError};

fn args(list: &[&str]) -> Vec<String> {
    list.iter().map(|a| a.to_string()).collect()
}

fn options(mode: Mode) -> CliOptions {
    CliOptions {
        context_json: None,
        mode,
        output_format: OutputFormat::Text,
    }
}

fn dev_context(base_url: &str) -> ResolveContext {
    ResolveContext {
        defaults: vec![],
        envs: vec![(
            "dev".to_string(),
            vec![("BASE_URL".to_string(), base_url.to_string())],
        )],
    }
}

#[test]
fn no_arguments_run_the_request_as_text() {
    let o = parse_args(&args(&[])).unwrap();
    assert_eq!(o.mode, Mode::Run);
    assert_eq!(o.output_format, OutputFormat::Text);
    assert_eq!(o.context_json, None);
}

#[test]
fn arguments_select_mode_format_and_context() {
    let o = parse_args(&args(&["--export-curl", "--output-json", "--context-json", "{}"])).unwrap();
    assert_eq!(o.mode, Mode::ExportCurl);
    assert_eq!(o.output_format, OutputFormat::Json);
    assert_eq!(o.context_json, Some("{}".to_string()));

    let o = parse_args(&args(&["--check", "--check"])).unwrap();
    assert_eq!(o.mode, Mode::Check);

    let o = parse_args(&args(&["--list-requests"])).unwrap();
    assert_eq!(o.mode, Mode::ListRequests);
}

#[test]
fn last_context_value_wins() {
    let o = parse_args(&args(&["--context-json", "a", "--context-json", "b"])).unwrap();
    assert_eq!(o.context_json, Some("b".to_string()));
}

#[test]
fn two_modes_conflict() {
    let e = parse_args(&args(&["--check", "--export-curl"])).err().unwrap();
    assert_eq!(e, "Only one command mode can be used at a time");
}

#[test]
fn context_flag_needs_a_value() {
    let e = parse_args(&args(&["--context-json"])).err().unwrap();
    assert_eq!(e, "Missing value for --context-json");
}

#[test]
fn unknown_argument_is_refused() {
    let e = parse_args(&args(&["--check", "-v"])).err().unwrap();
    assert_eq!(e, "Unknown argument: -v");
}

#[test]
fn check_resolves_request_without_executing_it() {
    let input = "### Local\n# @env dev\n\nGET {{BASE_URL}}/health\n";
    let run = run_command(&options(Mode::Check), input, Some(Ok(dev_context("http://127.0.0.1:1"))));
    assert!(run.warning.is_none());
    match run.result {
        Ok(CommandPlan::Finished(output)) => assert_eq!(render_text(&output), "OK\n"),
        _ => panic!("expected a finished check"),
    }
}

#[test]
fn check_reports_resolve_errors() {
    let run = run_command(&options(Mode::Check), "GET {{BASE_URL}}/health\n", None);
    assert!(run.warning.is_none());
    assert_eq!(run.result.err().unwrap(), "Resolve error: Missing variable: BASE_URL");
}

#[test]
fn export_mode_renders_curl_command() {
    let input = "# @env dev\nPOST {{BASE_URL}}/users\nAccept: text/plain\n\nhi\n";
    let run = run_command(&options(Mode::ExportCurl), input, Some(Ok(dev_context("https://x.test"))));
    match run.result {
        Ok(CommandPlan::Finished(output)) => assert_eq!(
            render_text(&output),
            "curl -X POST 'https://x.test/users' \\\n  -H 'Accept: text/plain' \\\n  --data-raw 'hi'\n"
        ),
        _ => panic!("expected a curl command"),
    }
}

#[test]
fn run_mode_leaves_the_call_to_the_caller() {
    let input = "### Ping\n@ID=7\nDELETE https://x.test/items/{{ID}}\n";
    let run = run_command(&options(Mode::Run), input, None);
    match run.result {
        Ok(CommandPlan::Execute { request, call }) => {
            assert_eq!(request.name, "Ping");
            assert_eq!(request.directives, vec!["@ID=7".to_string()]);
            assert_eq!(request.method, "DELETE");
            assert_eq!(request.url, "https://x.test/items/7");
            assert_eq!(call.method, HttpMethod::Delete);
            assert_eq!(call.url, "https://x.test/items/7");
        }
        _ => panic!("expected a request to execute"),
    }
}

#[test]
fn list_mode_ignores_the_context() {
    let input = "### A\nGET https://a.test\n\n### B\nGET https://b.test\n";
    let run = run_command(
        &options(Mode::ListRequests),
        input,
        Some(Err(ResolveError { message: "Invalid context JSON: x".to_string() })),
    );
    assert!(run.warning.is_none());
    match run.result {
        Ok(CommandPlan::Finished(output)) => assert_eq!(render_text(&output), "A 1:3\nB 4:5\n"),
        _ => panic!("expected a listing"),
    }
}

#[test]
fn parse_errors_are_located() {
    let run = run_command(&options(Mode::Check), "", None);
    assert_eq!(run.result.err().unwrap(), "Parse error at 1:1: Empty request");

    let e = parse_selected_request("\n\nGET\n").err().unwrap();
    assert_eq!(e, "Parse error at 3:5: Missing url");
}

#[test]
fn unreadable_context_is_a_warning_when_not_needed() {
    let bad = ResolveError { message: "Invalid context JSON: oops".to_string() };
    let run = run_command(&options(Mode::Check), "GET https://example.com\n", Some(Err(bad)));
    assert_eq!(run.warning, Some("Warning: Invalid context JSON: oops".to_string()));
    assert!(matches!(run.result, Ok(CommandPlan::Finished(CommandOutput::Check(_)))));
}

#[test]
fn unreadable_context_is_an_error_when_needed() {
    let bad = ResolveError { message: "Invalid context JSON: oops".to_string() };
    let run = run_command(&options(Mode::Check), "# @env dev\nGET https://example.com\n", Some(Err(bad)));
    assert!(run.warning.is_none());
    assert_eq!(run.result.err().unwrap(), "Resolve error: Invalid context JSON: oops");
}

#[test]
fn context_choice_without_value_is_empty() {
    let parsed = parse_selected_request("GET https://example.com\n").unwrap();
    let choice = context_for_request(&parsed, None).ok().unwrap();
    assert_eq!(choice.context, ResolveContext::default());
    assert!(choice.warning.is_none());
}

#[test]
fn directives_list_groups_then_variables() {
    let parsed =
        parse_selected_request("@B=2\n# @env dev\n@A=1\n# @env auth\nGET https://example.com\n").unwrap();
    assert_eq!(
        directives_of(&parsed),
        vec!["@env dev".to_string(), "@env auth".to_string(), "@B=2".to_string(), "@A=1".to_string()]
    );
}

#[test]
fn renders_empty_and_untitled_listings() {
    let empty = CommandOutput::RequestList(RequestListOutput { requests: vec![] });
    assert_eq!(render_text(&empty), "No requests found\n");
    let one = CommandOutput::RequestList(RequestListOutput {
        requests: vec![RequestListing { name: None, start_line: 2, end_line: 10 }],
    });
    assert_eq!(render_text(&one), "Untitled request 2:10\n");
}

#[test]
fn renders_check_and_curl() {
    assert_eq!(render_text(&CommandOutput::Check(CheckOutput { ok: true })), "OK\n");
    let curl = CommandOutput::Curl(CurlOutput { command: "curl 'x'".to_string() });
    assert_eq!(render_text(&curl), "curl 'x'\n");
}

#[test]
fn renders_executed_response() {
    let request = ExecutedRequestOutput {
        name: "Users".to_string(),
        directives: vec!["@env dev".to_string()],
        method: "GET".to_string(),
        url: "https://x.test".to_string(),
    };
    let response = Response {
        status: 201,
        headers: vec![Header { name: "content-type".to_string(), value: "text/plain".to_string() }],
        body: "done".to_string(),
    };
    let output = executed_output(request, response);
    assert_eq!(
        render_text(&output),
        "###Name: Users\n\n###Directives\n@env dev\n\n###Response\nHTTP 201\ncontent-type: text/plain\n\ndone\n"
    );
}

#[test]
fn renders_response_without_directives_or_headers() {
    let output = CommandOutput::ExecutedResponse(ExecutedResponseOutput {
        request: ExecutedRequestOutput {
            name: "Untitled request".to_string(),
            directives: vec![],
            method: "GET".to_string(),
            url: "u".to_string(),
        },
        response: ResponseOutput { status: 404, headers: Vec::<HeaderOutput>::new(), body: String::new() },
    });
    assert_eq!(
        render_text(&output),
        "###Name: Untitled request\n\n###Directives\nNone\n\n###Response\nHTTP 404\n\n\n"
    );
}

#[test]
fn timeout_errors_name_the_timeout() {
    assert_eq!(request_error(true, Some(1500), "x".to_string()), "request timed out after 1500ms");
    assert_eq!(request_error(true, Some(0), "x".to_string()), "request timed out after 0ms");
    assert_eq!(request_error(true, None, "x".to_string()), "request timed out");
    assert_eq!(request_error(false, Some(5), "connection refused".to_string()), "connection refused");
}
