//! What a highlighter answers when it is handed a line.

use vstd::prelude::*;

use crate::string_future::StringFuture;

verus! {

#[derive(Copy, Clone, Debug, PartialEq, Eq, Structural)]
pub enum LineAcceptance {
    AcceptedWantMore,
    /// Line accepted, but now I'm done
    AcceptedDone,
    /// Line not accepted, and I'm done, ask somebody else
    RejectedDone,
}

pub struct Response {
    /// Whether the line was taken, and whether more lines are wanted.
    pub line_accepted: LineAcceptance,
    pub highlighted: Vec<StringFuture>,
}

/// The texts of some highlighted output.
pub open spec fn futures_view(s: Seq<StringFuture>) -> Seq<Seq<char>> {
    s.map_values(|f: StringFuture| f@)
}

/// What a highlighter answered, as plain values: whether it took the line
/// and the texts it handed out, or its error message.
pub open spec fn response_view(r: Result<Response, String>) -> Result<(LineAcceptance, Seq<Seq<char>>), Seq<char>> {
    match r {
        Ok(resp) => Ok((resp.line_accepted, futures_view(resp.highlighted@))),
        Err(e) => Err(e@),
    }
}

/// What a highlighter handed out at the end of the input, as plain values.
pub open spec fn outputs_view(r: Result<Vec<StringFuture>, String>) -> Result<Seq<Seq<char>>, Seq<char>> {
    match r {
        Ok(v) => Ok(futures_view(v@)),
        Err(e) => Err(e@),
    }
}

} // verus!
