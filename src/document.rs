//! The shared state string of a room: last writer wins.
use vstd::prelude::*;

verus! {

/// The latest content applied to a room; no history is kept.
pub struct Document {
    content: String,
}

impl View for Document {
    type V = Seq<char>;

    closed spec fn view(&self) -> Seq<char> {
        self.content@
    }
}

impl Document {
    /// An empty document.
    pub fn new() -> (d: Document)
        ensures
            d@ == Seq::<char>::empty(),
    {
        Document { content: String::new() }
    }

    /// Replaces the content unconditionally.
    pub fn set_content(&mut self, payload: String)
        ensures
            final(self)@ == payload@,
    {
        self.content = payload;
    }

    /// The current content.
    pub fn get_content(&self) -> (r: String)
        ensures
            r@ == self@,
    {
        self.content.clone()
    }
}

} // verus!
