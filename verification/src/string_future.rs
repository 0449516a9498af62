//! Highlighted output, ready to be printed.

use vstd::prelude::*;

verus! {

/// A piece of highlighted output. The library computes it right away; a
/// caller may do that work on another thread and print the results in order.
pub struct StringFuture {
    result: String,
}

impl View for StringFuture {
    type V = Seq<char>;

    closed spec fn view(&self) -> Seq<char> {
        self.result@
    }
}

impl StringFuture {
    /// Create an already-finished future
    pub fn from_string(result: String) -> (r: StringFuture)
        ensures
            r@ == result@,
    {
        return StringFuture { result };
    }

    /// Whether the result is the empty text.
    #[allow(clippy::wrong_self_convention)]
    pub fn is_empty(&mut self) -> (r: bool)
        ensures
            r == (old(self)@.len() == 0),
            final(self)@ == old(self)@,
    {
        let chars = crate::text::chars_of(self.result.as_str());
        return chars.len() == 0;
    }

    /// The result.
    pub fn get(&self) -> (r: &str)
        ensures
            r@ == self@,
    {
        return self.result.as_str();
    }
}

} // verus!
