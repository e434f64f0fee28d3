//! Errors of filtering and extraction.
use vstd::prelude::*;

verus! {

/// Why filtering or extraction stopped. Each variant names what was at fault.
#[derive(Debug, Clone)]
pub enum ExtractError {
    /// A filter or a multi-dimension result names a dimension (or coordinate
    /// vector) that is not there.
    DimensionNotFound(String),
    /// A single-dimension result names a dimension that the variable lacks.
    UnknownDimension(String),
    /// The variable has fewer than one or more than four dimensions.
    UnsupportedRank(usize),
    /// A multi-dimension result holds an index past the end of the named dimension.
    IndexOutOfRange(String),
    /// A multi-dimension result names this dimension more than once.
    RepeatedDimension(String),
}

/// An error as values: the variant and the name or rank it carries.
pub enum ErrorView {
    DimensionNotFound(Seq<char>),
    UnknownDimension(Seq<char>),
    UnsupportedRank(usize),
    IndexOutOfRange(Seq<char>),
    RepeatedDimension(Seq<char>),
}

impl ExtractError {
    pub open spec fn view(&self) -> ErrorView {
        match self {
            ExtractError::DimensionNotFound(n) => ErrorView::DimensionNotFound(n@),
            ExtractError::UnknownDimension(n) => ErrorView::UnknownDimension(n@),
            ExtractError::UnsupportedRank(r) => ErrorView::UnsupportedRank(*r),
            ExtractError::IndexOutOfRange(n) => ErrorView::IndexOutOfRange(n@),
            ExtractError::RepeatedDimension(n) => ErrorView::RepeatedDimension(n@),
        }
    }
}

} // verus!
