//! Results of the commands, as they are printed.

use vstd::prelude::*;

use crate::req::listing::RequestListing;
use crate::req::model::{headers_view, Header, Response};

verus! {

/// The requests of a file.
pub struct RequestListOutput {
    pub requests: Vec<RequestListing>,
}

/// A request that resolved.
pub struct CheckOutput {
    pub ok: bool,
}

/// A request exported as a `curl` command.
pub struct CurlOutput {
    pub command: String,
}

/// An executed request and its response.
pub struct ExecutedResponseOutput {
    pub request: ExecutedRequestOutput,
    pub response: ResponseOutput,
}

/// What was executed.
pub struct ExecutedRequestOutput {
    pub name: String,
    pub directives: Vec<String>,
    pub method: String,
    pub url: String,
}

/// A response.
pub struct ResponseOutput {
    pub status: u16,
    pub headers: Vec<HeaderOutput>,
    pub body: String,
}

/// A response header.
pub struct HeaderOutput {
    pub name: String,
    pub value: String,
}

impl View for HeaderOutput {
    type V = (Seq<char>, Seq<char>);

    open spec fn view(&self) -> (Seq<char>, Seq<char>) {
        (self.name@, self.value@)
    }
}

/// Values of a list of response headers.
pub open spec fn header_outputs_view(v: Seq<HeaderOutput>) -> Seq<(Seq<char>, Seq<char>)> {
    v.map_values(|h: HeaderOutput| h@)
}

/// The printed form of a response: the same status, headers and body.
pub fn response_output(response: Response) -> (r: ResponseOutput)
    ensures
        r.status == response.status,
        header_outputs_view(r.headers@) == headers_view(response.headers@),
        r.body@ == response.body@,
{
    broadcast use vstd::std_specs::vec::group_vec_axioms;

    let Response { status, headers, body } = response;
    let ghost all = headers@;
    let mut out: Vec<HeaderOutput> = Vec::new();
    assert(header_outputs_view(out@) =~= headers_view(all).take(0));
    for header in it: headers
        invariant
            it.seq() == all,
            header_outputs_view(out@) == headers_view(all).take(it.index() as int),
    {
        let ghost k = it.index() as int;
        let ghost hv = header@;
        let Header { name, value } = header;
        let ghost before = out@;
        out.push(HeaderOutput { name, value });
        assert(header_outputs_view(out@) =~= header_outputs_view(before).push(hv));
        assert(headers_view(all).take(k + 1) =~= headers_view(all).take(k).push(hv));
    }
    assert(headers_view(all).take(all.len() as int) =~= headers_view(all));
    ResponseOutput { status, headers: out, body }
}

} // verus!
