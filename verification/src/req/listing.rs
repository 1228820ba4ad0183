//! Line ranges of the requests in a file.

use vstd::prelude::*;

use super::model::opt_view;
use super::parser::ast::{BlockModel, ReqBlock};
use super::parser::document::{
    block_first, block_last, block_placed, lemma_document_layout, spec_parse,
};
use super::parser::lexer::spec_lex;
use super::parser::parse;
use crate::text::{lines, utf8_len};

verus! {

/// Name and one-based, inclusive line range of a request.
#[derive(Debug, Clone, PartialEq, Eq)]
pub struct RequestListing {
    pub name: Option<String>,
    pub start_line: usize,
    pub end_line: usize,
}

/// Value of a [`RequestListing`].
pub struct ListingModel {
    pub name: Option<Seq<char>>,
    pub start_line: nat,
    pub end_line: nat,
}

impl View for RequestListing {
    type V = ListingModel;

    open spec fn view(&self) -> ListingModel {
        ListingModel {
            name: opt_view(self.name),
            start_line: self.start_line as nat,
            end_line: self.end_line as nat,
        }
    }
}

/// The listing of a block: from its marker (or first line) to its last line.
pub open spec fn listing_of(b: BlockModel) -> ListingModel {
    let start: nat = match b.marker_line {
        Some(m) => m as nat,
        None => b.start_line as nat,
    };
    ListingModel {
        name: b.name,
        start_line: start,
        end_line: if b.lines.len() == 0 {
            start
        } else {
            (b.start_line + b.lines.len() - 1) as nat
        },
    }
}

/// The listings of the requests of `input`, in order.
pub open spec fn spec_list_requests(input: Seq<char>) -> Seq<ListingModel> {
    spec_parse(input).map_values(|b: BlockModel| listing_of(b))
}

/// Lists the requests of `input` with their names and line ranges.
pub fn list_requests(input: &str) -> (r: Vec<RequestListing>)
    ensures
        r@.map_values(|l: RequestListing| l@) == spec_list_requests(input@),
{
    broadcast use vstd::std_specs::vec::group_vec_axioms;

    crate::text::byte_len(input);
    let document = parse(input);
    proof {
        lemma_document_layout(input@);
        super::parser::document::lemma_lex_numbered(input@);
    }
    let ghost bs = spec_parse(input@);
    let ghost all = document.requests@;
    let mut out: Vec<RequestListing> = Vec::new();
    for block in it: document.requests
        invariant
            it.seq() == all,
            all.map_values(|b: ReqBlock| b@) == bs,
            bs == spec_parse(input@),
            spec_lex(input@).len() < usize::MAX,
            forall|k: int| 0 <= k < bs.len() ==> block_placed(#[trigger] bs[k], spec_lex(input@)),
            out@.map_values(|l: RequestListing| l@) == bs.take(it.index() as int).map_values(
                |b: BlockModel| listing_of(b),
            ),
    {
        let ghost i = it.index() as int;
        assert(all[i]@ == bs[i]);
        assert(block_placed(bs[i], spec_lex(input@)));
        let start_line = match block.marker_line {
            Some(m) => m,
            None => block.start_line,
        };
        let end_line = if block.lines.len() == 0 {
            start_line
        } else {
            block.start_line + block.lines.len() - 1
        };
        let ghost old_out = out@;
        let listing = RequestListing { name: block.name, start_line, end_line };
        assert(listing@ == listing_of(bs[i]));
        out.push(listing);
        assert(out@.map_values(|l: RequestListing| l@) =~= old_out.map_values(
            |l: RequestListing| l@,
        ).push(listing_of(bs[i])));
        assert(bs.take(i + 1).map_values(|b: BlockModel| listing_of(b)) =~= bs.take(i).map_values(
            |b: BlockModel| listing_of(b),
        ).push(listing_of(bs[i])));
    }
    assert(bs.take(bs.len() as int) =~= bs);
    out
}

/// Listed ranges are well formed, lie within the input, and follow one
/// another in order without overlapping.
pub proof fn lemma_listing_ranges(input: Seq<char>)
    requires
        utf8_len(input) < usize::MAX,
    ensures
        forall|k: int|
            0 <= k < spec_list_requests(input).len() ==> {
                &&& 1 <= (#[trigger] spec_list_requests(input)[k]).start_line
                &&& spec_list_requests(input)[k].start_line <= spec_list_requests(input)[k].end_line
                &&& spec_list_requests(input)[k].end_line <= lines(input).len()
            },
        forall|k: int|
            0 <= k < spec_list_requests(input).len() - 1 ==> (#[trigger] spec_list_requests(
                input,
            )[k]).end_line < spec_list_requests(input)[k + 1].start_line,
{
    lemma_document_layout(input);
    super::parser::document::lemma_lex_numbered(input);
    let bs = spec_parse(input);
    let ls = spec_list_requests(input);
    assert forall|k: int| 0 <= k < ls.len() implies {
        &&& 1 <= (#[trigger] ls[k]).start_line
        &&& ls[k].start_line <= ls[k].end_line
        &&& ls[k].end_line <= lines(input).len()
    } by {
        assert(block_placed(bs[k], spec_lex(input)));
        assert(ls[k] == listing_of(bs[k]));
    }
    assert forall|k: int| 0 <= k < ls.len() - 1 implies (#[trigger] ls[k]).end_line < ls[k
        + 1].start_line by {
        assert(block_placed(bs[k], spec_lex(input)));
        assert(block_placed(bs[k + 1], spec_lex(input)));
        assert(ls[k] == listing_of(bs[k]));
        assert(ls[k + 1] == listing_of(bs[k + 1]));
        assert(block_last(bs[k]) < block_first(bs[k + 1]));
    }
}

} // verus!
