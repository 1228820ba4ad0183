//! Text rendering of command results.

use vstd::prelude::*;

use super::commands::CommandOutput;
use super::dto::{header_outputs_view, ExecutedResponseOutput, RequestListOutput};
use crate::req::listing::{ListingModel, RequestListing};
use crate::text::{decimal, push_decimal, string_views};
use vstd::string::StringExecFns;

verus! {

/// Each element followed by a line break.
pub open spec fn lines_text(ls: Seq<Seq<char>>) -> Seq<char>
    decreases ls.len(),
{
    if ls.len() == 0 {
        seq![]
    } else {
        lines_text(ls.drop_last()) + ls.last() + "\n"@
    }
}

/// `NAME START:END` of a listed request.
pub open spec fn listing_line(l: ListingModel) -> Seq<char> {
    (match l.name {
        Some(n) => n,
        None => "Untitled request"@,
    }) + " "@ + decimal(l.start_line) + ":"@ + decimal(l.end_line)
}

pub open spec fn request_list_text(ls: Seq<ListingModel>) -> Seq<char> {
    if ls.len() == 0 {
        "No requests found\n"@
    } else {
        lines_text(ls.map_values(|l: ListingModel| listing_line(l)))
    }
}

/// The text printed for an executed request.
pub open spec fn response_text(
    name: Seq<char>,
    directives: Seq<Seq<char>>,
    status: u16,
    headers: Seq<(Seq<char>, Seq<char>)>,
    body: Seq<char>,
) -> Seq<char> {
    "###Name: "@ + name + "\n"@ + "\n"@ + "###Directives\n"@ + (if directives.len() == 0 {
        "None\n"@
    } else {
        lines_text(directives)
    }) + "\n"@ + "###Response\n"@ + "HTTP "@ + decimal(status as nat) + "\n"@ + lines_text(
        headers.map_values(|h: (Seq<char>, Seq<char>)| h.0 + ": "@ + h.1),
    ) + "\n"@ + body + "\n"@
}

/// The text printed for a command result.
pub open spec fn output_text(o: CommandOutput) -> Seq<char> {
    match o {
        CommandOutput::RequestList(l) => request_list_text(l.requests@.map_values(|x: RequestListing| x@)),
        CommandOutput::Check(_) => "OK\n"@,
        CommandOutput::Curl(c) => c.command@ + "\n"@,
        CommandOutput::ExecutedResponse(e) => response_text(
            e.request.name@,
            string_views(e.request.directives@),
            e.response.status,
            header_outputs_view(e.response.headers@),
            e.response.body@,
        ),
    }
}

fn request_list_string(output: &RequestListOutput) -> (s: String)
    ensures
        s@ == request_list_text(output.requests@.map_values(|x: RequestListing| x@)),
{
    let ghost ls = output.requests@.map_values(|x: RequestListing| x@);
    let ghost texts = ls.map_values(|l: ListingModel| listing_line(l));
    if output.requests.len() == 0 {
        return "No requests found\n".to_owned();
    }
    let mut s = String::new();
    let mut i: usize = 0;
    assert(texts.take(0) =~= Seq::<Seq<char>>::empty());
    while i < output.requests.len()
        invariant
            i <= output.requests@.len(),
            ls == output.requests@.map_values(|x: RequestListing| x@),
            texts == ls.map_values(|l: ListingModel| listing_line(l)),
            s@ == lines_text(texts.take(i as int)),
        decreases output.requests@.len() - i,
    {
        let request = &output.requests[i];
        let ghost before = s@;
        match &request.name {
            Some(n) => s.append(n.as_str()),
            None => s.append("Untitled request"),
        }
        s.append(" ");
        push_decimal(&mut s, request.start_line as u64);
        s.append(":");
        push_decimal(&mut s, request.end_line as u64);
        s.append("\n");
        assert(ls[i as int] == request@);
        assert(texts.take(i + 1).drop_last() =~= texts.take(i as int));
        assert(s@ =~= before + listing_line(ls[i as int]) + "\n"@);
        i = i + 1;
    }
    assert(texts.take(i as int) =~= texts);
    s
}

fn response_string(output: &ExecutedResponseOutput) -> (s: String)
    ensures
        s@ == response_text(
            output.request.name@,
            string_views(output.request.directives@),
            output.response.status,
            header_outputs_view(output.response.headers@),
            output.response.body@,
        ),
{
    let ghost ds = string_views(output.request.directives@);
    let ghost hs = header_outputs_view(output.response.headers@).map_values(
        |h: (Seq<char>, Seq<char>)| h.0 + ": "@ + h.1,
    );
    let mut s = "###Name: ".to_owned();
    s.append(output.request.name.as_str());
    s.append("\n");
    s.append("\n");
    s.append("###Directives\n");
    let ghost head = s@;
    if output.request.directives.len() == 0 {
        s.append("None\n");
    } else {
        let mut i: usize = 0;
        assert(ds.take(0) =~= Seq::<Seq<char>>::empty());
        assert(head + lines_text(ds.take(0)) =~= head);
        while i < output.request.directives.len()
            invariant
                i <= output.request.directives@.len(),
                ds == string_views(output.request.directives@),
                s@ == head + lines_text(ds.take(i as int)),
            decreases output.request.directives@.len() - i,
        {
            let ghost before = s@;
            s.append(output.request.directives[i].as_str());
            s.append("\n");
            assert(ds.take(i + 1).drop_last() =~= ds.take(i as int));
            assert(s@ =~= head + lines_text(ds.take(i + 1)));
            i = i + 1;
        }
        assert(ds.take(i as int) =~= ds);
    }
    s.append("\n");
    s.append("###Response\n");
    s.append("HTTP ");
    push_decimal(&mut s, output.response.status as u64);
    s.append("\n");
    let ghost mid = s@;
    let mut j: usize = 0;
    assert(hs.take(0) =~= Seq::<Seq<char>>::empty());
    assert(mid + lines_text(hs.take(0)) =~= mid);
    while j < output.response.headers.len()
        invariant
            j <= output.response.headers@.len(),
            hs == header_outputs_view(output.response.headers@).map_values(
                |h: (Seq<char>, Seq<char>)| h.0 + ": "@ + h.1,
            ),
            s@ == mid + lines_text(hs.take(j as int)),
        decreases output.response.headers@.len() - j,
    {
        s.append(output.response.headers[j].name.as_str());
        s.append(": ");
        s.append(output.response.headers[j].value.as_str());
        s.append("\n");
        assert(hs.take(j + 1).drop_last() =~= hs.take(j as int));
        assert(hs[j as int] == output.response.headers@[j as int].name@ + ": "@ + output.response.headers@[j as int].value@);
        assert(s@ =~= mid + lines_text(hs.take(j + 1)));
        j = j + 1;
    }
    assert(hs.take(j as int) =~= hs);
    s.append("\n");
    s.append(output.response.body.as_str());
    s.append("\n");
    s
}

/// The text printed for a command result.
pub fn render_text(output: &CommandOutput) -> (s: String)
    ensures
        s@ == output_text(*output),
{
    match output {
        CommandOutput::RequestList(l) => request_list_string(l),
        CommandOutput::Check(_) => "OK\n".to_owned(),
        CommandOutput::Curl(c) => {
            let mut s = String::new();
            s.append(c.command.as_str());
            s.append("\n");
            s
        },
        CommandOutput::ExecutedResponse(e) => response_string(e),
    }
}

} // verus!
