use req_core::req::listing::list_requests;
use req_core::req::lowering::{lower_first_request, lower_request};
use req_core::req::model::{HttpMethod, ParsedRequest, RequestBody};
use req_core::req::parser::ast::{Directive, ReqLine};
use req_core::req::parser::lexer::parse_directive;
use req_core::req::parser::marker::parse_request_marker;
use req_core::req::parser::parse;
use req_core::req::resolver::{needs_context, resolve_request, ResolveContext};

fn lower(input: &str) -> ParsedRequest {
    lower_first_request(&parse(input)).unwrap()
}

fn lower_err(input: &str) -> (String, usize, usize) {
    let e = lower_first_request(&parse(input)).unwrap_err();
    (e.message, e.line, e.column)
}

fn ctx(defaults: &[(&str, &str)], envs: &[(&str, &[(&str, &str)])]) -> ResolveContext {
    let pairs = |v: &[(&str, &str)]| -> Vec<(String, String)> {
        v.iter().map(|(a, b)| (a.to_string(), b.to_string())).collect()
    };
    ResolveContext {
        defaults: pairs(defaults),
        envs: envs.iter().map(|(n, v)| (n.to_string(), pairs(v))).collect(),
    }
}

#[test]
fn every_marker_opens_a_named_block() {
    let doc = parse("### First\n###\nGET https://x.test\n###   Third  \n");
    assert_eq!(doc.requests.len(), 3);
    assert_eq!(doc.requests[0].name, Some("First".to_string()));
    assert_eq!(doc.requests[0].marker_line, Some(1));
    assert_eq!(doc.requests[0].start_line, 2);
    assert!(doc.requests[0].lines.is_empty());
    assert_eq!(doc.requests[1].name, None);
    assert_eq!(doc.requests[1].marker_line, Some(2));
    assert_eq!(doc.requests[1].start_line, 3);
    assert_eq!(doc.requests[2].name, Some("Third".to_string()));
    assert_eq!(doc.requests[2].marker_line, Some(4));
}

#[test]
fn markers_are_recognised_after_trimming() {
    assert_eq!(parse_request_marker("### Name"), Some(Some("Name".to_string())));
    assert_eq!(parse_request_marker("###"), Some(None));
    assert_eq!(parse_request_marker("###   "), Some(None));
    assert_eq!(parse_request_marker("## Name"), None);
}

#[test]
fn listed_ranges_follow_each_other() {
    let input = "GET https://a.test\n\nbody\nPOST https://b.test\n\n### C\n\nPUT https://c.test\n";
    let listed = list_requests(input);
    assert_eq!(listed.len(), 3);
    assert_eq!((listed[0].start_line, listed[0].end_line), (1, 3));
    assert_eq!((listed[1].start_line, listed[1].end_line), (4, 5));
    assert_eq!((listed[2].start_line, listed[2].end_line), (6, 8));
    for pair in listed.windows(2) {
        assert!(pair[0].start_line <= pair[0].end_line);
        assert!(pair[0].end_line < pair[1].start_line);
    }
}

#[test]
fn empty_input_lists_nothing() {
    assert!(list_requests("").is_empty());
    assert!(parse("").requests.is_empty());
}

#[test]
fn body_starts_after_first_empty_line() {
    let parsed = lower("GET https://x.test\nAccept: a\n# note\n\nline one\n\n# kept\nline two");
    assert_eq!(parsed.request.headers.len(), 1);
    assert_eq!(
        parsed.request.body,
        Some(RequestBody::Raw("line one\n\n# kept\nline two".to_string()))
    );
}

#[test]
fn no_body_without_lines_after_the_empty_line() {
    let parsed = lower("GET https://x.test\n\n");
    assert_eq!(parsed.request.body, None);
}

#[test]
fn trailing_comments_after_a_body_are_dropped() {
    let parsed = lower("GET https://x.test\n\nbody\n# trailing\n# @env dev");
    assert_eq!(parsed.request.body, Some(RequestBody::Raw("body".to_string())));
    assert!(parsed.envs.is_empty());
}

#[test]
fn directives_before_the_request_line_are_collected_in_order() {
    let parsed = lower("# @env b\n@X=1\n# @env a\n@Y = 2 \nGET https://x.test");
    assert_eq!(parsed.envs, vec!["b".to_string(), "a".to_string()]);
    assert_eq!(parsed.vars.len(), 2);
    assert_eq!((parsed.vars[1].name.as_str(), parsed.vars[1].value.as_str()), ("Y", "2"));
}

#[test]
fn lowering_errors_have_line_and_column() {
    assert_eq!(lower_err(""), ("Empty request".to_string(), 1, 1));
    assert_eq!(lower_err("### Only name\n"), ("Missing request line".to_string(), 2, 1));
    assert_eq!(lower_err("GET"), ("Missing url".to_string(), 1, 5));
    assert_eq!(lower_err("GET a b"), ("Invalid request line".to_string(), 1, 7));
    assert_eq!(lower_err("FETCH https://x.test"), ("Unsupported method: FETCH".to_string(), 1, 1));
    assert_eq!(lower_err("GET https://x.test\nno colon"), ("Invalid header".to_string(), 2, 1));
    assert_eq!(lower_err("GET https://x.test\n  : v"), ("Missing header name".to_string(), 2, 1));
    assert_eq!(
        lower_err("GET https://x.test\n@X=1"),
        ("Directive must appear before request line".to_string(), 2, 1)
    );
    assert_eq!(
        lower_err("GET https://x.test\n\nbody\n# @env dev\nmore"),
        ("Directive must appear before request line".to_string(), 4, 1)
    );
}

#[test]
fn columns_count_utf8_bytes() {
    assert_eq!(lower_err("GÉT"), ("Missing url".to_string(), 1, 6));
    assert_eq!(lower_err("GÉT ü x"), ("Invalid request line".to_string(), 1, 9));
    assert_eq!(lower_err("GÉT https://x.test"), ("Unsupported method: GÉT".to_string(), 1, 1));
}

#[test]
fn non_ascii_text_is_kept() {
    let parsed = lower("### Grüße\nPOST https://x.test/ä\nX-Name:  Zoë  \n\n{\"k\": \"✓\"}");
    assert_eq!(parsed.name, Some("Grüße".to_string()));
    assert_eq!(parsed.request.method, HttpMethod::Post);
    assert_eq!(parsed.request.url, "https://x.test/ä");
    assert_eq!(parsed.request.headers[0].name, "X-Name");
    assert_eq!(parsed.request.headers[0].value, "Zoë");
    assert_eq!(parsed.request.body, Some(RequestBody::Raw("{\"k\": \"✓\"}".to_string())));
}

#[test]
fn crlf_line_endings_are_lines() {
    let doc = parse("GET https://x.test\r\nAccept: a\r\n");
    assert_eq!(doc.requests.len(), 1);
    assert_eq!(doc.requests[0].lines[1], ReqLine::Raw("Accept: a".to_string()));
}

#[test]
fn lower_request_reads_one_block() {
    let doc = parse("### A\nGET https://a.test\n### B\nHEAD https://b.test\n");
    let b = lower_request(&doc.requests[1]).unwrap();
    assert_eq!(b.name, Some("B".to_string()));
    assert_eq!(b.request.method, HttpMethod::Head);
}

#[test]
fn precedence_is_inline_then_groups_then_defaults() {
    let parsed = lower("# @env dev\n@A=inline\nGET https://x.test/{{A}}/{{B}}/{{C}}");
    let context = ctx(
        &[("A", "default"), ("B", "default"), ("C", "default")],
        &[("dev", &[("A", "group"), ("B", "group")])],
    );
    let request = resolve_request(parsed, context).unwrap();
    assert_eq!(request.url, "https://x.test/inline/group/default");
}

#[test]
fn selected_groups_may_not_share_a_name() {
    let parsed = lower("# @env one\n# @env two\nGET https://x.test");
    let context = ctx(&[], &[("one", &[("K", "1")]), ("two", &[("K", "2")])]);
    let error = resolve_request(parsed, context).unwrap_err();
    assert_eq!(error.message, "Variable K is defined by multiple selected environments: one, two");
}

#[test]
fn unselected_groups_are_not_visible() {
    let parsed = lower("GET https://x.test/{{K}}");
    let context = ctx(&[], &[("dev", &[("K", "1")])]);
    let error = resolve_request(parsed, context).unwrap_err();
    assert_eq!(error.message, "Missing variable: K");
}

#[test]
fn request_needing_no_context_resolves_in_any_context() {
    let parsed = lower("@ID=3\nGET https://x.test/{{ID}}\nX: {{ ID }}");
    assert!(!needs_context(&parsed).unwrap());
    let empty = resolve_request(parsed.clone(), ResolveContext::default()).unwrap();
    let other = resolve_request(parsed, ctx(&[("ID", "9")], &[])).unwrap();
    assert_eq!(empty, other);
    assert_eq!(empty.url, "https://x.test/3");
    assert_eq!(empty.headers[0].value, "3");
}

#[test]
fn template_errors_are_reported_by_needs_context() {
    let parsed = lower("GET https://x.test/{{ID");
    assert_eq!(needs_context(&parsed).unwrap_err().message, "Unclosed variable expression");
}

#[test]
fn values_are_not_resolved_again() {
    let parsed = lower("@A={{B}}\n@B=b\nGET https://x.test/{{A}}");
    let request = resolve_request(parsed, ResolveContext::default()).unwrap();
    assert_eq!(request.url, "https://x.test/{{B}}");
}

#[test]
fn directives_are_env_selections_or_inline_variables() {
    assert_eq!(parse_directive("# @env dev"), Some(Directive::Env("dev".to_string())));
    assert_eq!(parse_directive("#@env   dev"), Some(Directive::Env("dev".to_string())));
    assert_eq!(
        parse_directive("@ NAME = a=b "),
        Some(Directive::Variable { name: "NAME".to_string(), value: "a=b".to_string() })
    );
    assert_eq!(parse_directive("# @env a b"), None);
    assert_eq!(parse_directive("# @env"), None);
    assert_eq!(parse_directive("@NAME="), None);
    assert_eq!(parse_directive("@=value"), None);
    assert_eq!(parse_directive("# just a comment"), None);
    assert_eq!(parse_directive("GET https://x.test"), None);
}

#[test]
fn whitespace_matches_unicode_white_space() {
    for u in 0u32..0x11_0000 {
        if let Some(c) = char::from_u32(u) {
            assert_eq!(req_core::text::is_whitespace(c), c.is_whitespace(), "U+{:04X}", u);
        }
    }
}

#[test]
fn unicode_spaces_separate_words() {
    let parsed = lower("GET\u{3000}https://x.test\nX:\u{a0}v\u{2003}");
    assert_eq!(parsed.request.url, "https://x.test");
    assert_eq!(parsed.request.headers[0].value, "v");
}
