//! The executable request model and its mathematical view.

use vstd::prelude::*;

verus! {

/// A request lowered from a request block, before variables are resolved.
#[derive(Debug, Clone, PartialEq, Eq)]
pub struct ParsedRequest {
    pub name: Option<String>,
    pub envs: Vec<String>,
    pub vars: Vec<Variable>,
    pub request: Request,
}

/// An inline `@NAME=value` variable.
#[derive(Debug, Clone, PartialEq, Eq)]
pub struct Variable {
    pub name: String,
    pub value: String,
}

/// An executable HTTP request.
#[derive(Debug, Clone, PartialEq, Eq)]
pub struct Request {
    pub method: HttpMethod,
    pub url: String,
    pub headers: Vec<Header>,
    pub body: Option<RequestBody>,
    pub options: RequestOptions,
}

/// Transport options of a request.
#[derive(Debug, Clone, PartialEq, Eq)]
pub struct RequestOptions {
    /// Timeout of the whole request in milliseconds; `None` means no timeout.
    pub timeout_ms: Option<u64>,
}

impl Default for RequestOptions {
    fn default() -> (r: Self)
        ensures
            r.timeout_ms is None,
    {
        RequestOptions { timeout_ms: None }
    }
}

/// The response to an executed request.
#[derive(Debug, Clone, PartialEq, Eq)]
pub struct Response {
    pub status: u16,
    pub headers: Vec<Header>,
    pub body: String,
}

/// A `Name: value` header.
#[derive(Debug, Clone, PartialEq, Eq)]
pub struct Header {
    pub name: String,
    pub value: String,
}

/// The HTTP methods the format accepts.
#[derive(Debug, Clone, Copy, PartialEq, Eq, Structural)]
pub enum HttpMethod {
    Get,
    Post,
    Put,
    Patch,
    Delete,
    Head,
    Options,
}

/// A request body.
#[derive(Debug, Clone, PartialEq, Eq)]
pub enum RequestBody {
    Raw(String),
}

/// Value of a [`Request`].
pub struct RequestModel {
    pub method: HttpMethod,
    pub url: Seq<char>,
    pub headers: Seq<(Seq<char>, Seq<char>)>,
    pub body: Option<Seq<char>>,
    pub timeout_ms: Option<u64>,
}

/// Value of a [`ParsedRequest`].
pub struct ParsedRequestModel {
    pub name: Option<Seq<char>>,
    pub envs: Seq<Seq<char>>,
    pub vars: Seq<(Seq<char>, Seq<char>)>,
    pub request: RequestModel,
}

/// Value of an optional string.
pub open spec fn opt_view(s: Option<String>) -> Option<Seq<char>> {
    match s {
        Some(s) => Some(s@),
        None => None,
    }
}

/// Values of a list of strings.
pub open spec fn strings_view(v: Seq<String>) -> Seq<Seq<char>> {
    v.map_values(|s: String| s@)
}

impl View for Header {
    type V = (Seq<char>, Seq<char>);

    open spec fn view(&self) -> (Seq<char>, Seq<char>) {
        (self.name@, self.value@)
    }
}

impl View for Variable {
    type V = (Seq<char>, Seq<char>);

    open spec fn view(&self) -> (Seq<char>, Seq<char>) {
        (self.name@, self.value@)
    }
}

/// Values of a list of headers.
pub open spec fn headers_view(v: Seq<Header>) -> Seq<(Seq<char>, Seq<char>)> {
    v.map_values(|h: Header| h@)
}

/// Values of a list of variables.
pub open spec fn vars_view(v: Seq<Variable>) -> Seq<(Seq<char>, Seq<char>)> {
    v.map_values(|h: Variable| h@)
}

/// Value of an optional body.
pub open spec fn body_view(b: Option<RequestBody>) -> Option<Seq<char>> {
    match b {
        Some(RequestBody::Raw(s)) => Some(s@),
        None => None,
    }
}

impl View for Request {
    type V = RequestModel;

    open spec fn view(&self) -> RequestModel {
        RequestModel {
            method: self.method,
            url: self.url@,
            headers: headers_view(self.headers@),
            body: body_view(self.body),
            timeout_ms: self.options.timeout_ms,
        }
    }
}

impl View for ParsedRequest {
    type V = ParsedRequestModel;

    open spec fn view(&self) -> ParsedRequestModel {
        ParsedRequestModel {
            name: opt_view(self.name),
            envs: strings_view(self.envs@),
            vars: vars_view(self.vars@),
            request: self.request@,
        }
    }
}

} // verus!
