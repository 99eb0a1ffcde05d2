//! An open document.
use crate::ropes;
use ropey::Rope;
use vstd::prelude::*;

verus! {

/// The buffer of a document that is open in the editor, and its version.
#[derive(Debug)]
pub struct Document {
    pub content: Rope,
    pub version: i32,
}

impl Document {
    /// The text of the buffer.
    pub open spec fn text(&self) -> Seq<char> {
        ropes::rope_text(self.content)
    }

    /// The text of the buffer.
    pub fn text_string(&self) -> (text: String)
        ensures
            text@ == self.text(),
    {
        ropes::rope_to_string(&self.content)
    }
}

} // verus!
