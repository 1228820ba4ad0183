//! Parser AST: documents, blocks and classified lines.

use vstd::prelude::*;

use super::span::Span;
use crate::req::model::opt_view;

verus! {

/// Parsed representation of a complete `.req` document.
#[derive(Debug, Clone, PartialEq, Eq)]
pub struct ReqDocument {
    /// Request blocks found in the document.
    pub requests: Vec<ReqBlock>,
}

/// A single request block, optionally introduced by a `###` marker.
#[derive(Debug, Clone, PartialEq, Eq)]
pub struct ReqBlock {
    /// Optional request name parsed from `### Name`.
    pub name: Option<String>,
    /// One-based line of the `###` marker, when the block has one.
    pub marker_line: Option<usize>,
    /// One-based line number where the block content starts.
    pub start_line: usize,
    /// Classified lines that belong to this block.
    pub lines: Vec<ReqLine>,
    /// Source range of the block, marker included.
    pub span: Span,
}

/// A classified line inside a request block.
#[derive(Debug, Clone, PartialEq, Eq)]
pub enum ReqLine {
    /// An empty line.
    Empty,
    /// A `#` or `//` comment, kept verbatim.
    Comment(String),
    /// A parser-supported directive such as `# @env dev`.
    Directive(Directive),
    /// Any other line, kept verbatim.
    Raw(String),
}

/// Parser-supported `.req` directives.
#[derive(Debug, Clone, PartialEq, Eq)]
pub enum Directive {
    /// Selects an environment group for the request.
    Env(String),
    /// Defines a request-local variable override.
    Variable { name: String, value: String },
}

/// Value of a [`Directive`].
pub enum DirectiveModel {
    Env(Seq<char>),
    Variable(Seq<char>, Seq<char>),
}

/// Value of a [`ReqLine`].
pub enum LineModel {
    Empty,
    Comment(Seq<char>),
    Directive(DirectiveModel),
    Raw(Seq<char>),
}

/// Value of a [`ReqBlock`].
pub struct BlockModel {
    pub name: Option<Seq<char>>,
    pub marker_line: Option<usize>,
    pub start_line: usize,
    pub lines: Seq<LineModel>,
    pub span: Span,
}

impl View for Directive {
    type V = DirectiveModel;

    open spec fn view(&self) -> DirectiveModel {
        match self {
            Directive::Env(e) => DirectiveModel::Env(e@),
            Directive::Variable { name, value } => DirectiveModel::Variable(name@, value@),
        }
    }
}

impl View for ReqLine {
    type V = LineModel;

    open spec fn view(&self) -> LineModel {
        match self {
            ReqLine::Empty => LineModel::Empty,
            ReqLine::Comment(c) => LineModel::Comment(c@),
            ReqLine::Directive(d) => LineModel::Directive(d@),
            ReqLine::Raw(r) => LineModel::Raw(r@),
        }
    }
}

/// Values of a list of lines.
pub open spec fn lines_view(v: Seq<ReqLine>) -> Seq<LineModel> {
    v.map_values(|l: ReqLine| l@)
}

impl View for ReqBlock {
    type V = BlockModel;

    open spec fn view(&self) -> BlockModel {
        BlockModel {
            name: opt_view(self.name),
            marker_line: self.marker_line,
            start_line: self.start_line,
            lines: lines_view(self.lines@),
            span: self.span,
        }
    }
}

/// Values of a list of blocks.
pub open spec fn blocks_view(v: Seq<ReqBlock>) -> Seq<BlockModel> {
    v.map_values(|b: ReqBlock| b@)
}

} // verus!
