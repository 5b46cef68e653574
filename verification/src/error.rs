use vstd::prelude::*;

verus! {

/// Terminal failure cause of a pipeline invocation.
///
/// The pipeline is fail-fast: none of these is recovered locally, and a run
/// that returns an error must be treated as having produced no valid output.
/// Unknown vocabulary terms are not errors; they are silently dropped.
#[derive(Clone, Copy, Debug, PartialEq, Eq, Structural)]
pub enum ParseError {
    /// A line of a vocabulary or query-log file is not a valid
    /// JSON-encoded string literal.
    MalformedLine,
    /// A `.gz`-suffixed part is not a valid gzip stream.
    InvalidGzip,
}

impl ParseError {
    /// Short description, for callers that report the failure.
    pub fn message(&self) -> (r: &'static str)
        ensures
            self is MalformedLine ==> r@ == "line is not a JSON string literal"@,
            self is InvalidGzip ==> r@ == "not a valid gzip file"@,
            r@.len() > 0,
    {
        proof {
            reveal_strlit("line is not a JSON string literal");
            reveal_strlit("not a valid gzip file");
        }
        match self {
            ParseError::MalformedLine => "line is not a JSON string literal",
            ParseError::InvalidGzip => "not a valid gzip file",
        }
    }
}

} // verus!
