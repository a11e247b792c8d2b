//! What the graph asks of the labels that callers attach to nodes and edges.

use vstd::prelude::*;
use crate::text::{decimal, push_decimal, utf8_len};
use crate::wire::Wire;

verus! {

/// A label: a value that can be stored as bytes and shown as text.
pub trait Label: Wire {
    /// The text that shows a label.
    spec fn rendering(m: Self::Model) -> Seq<char>;

    /// Shows the label as text.
    fn render(&self) -> (text: String)
        ensures
            text@ == Self::rendering(self.model()),
    ;

    /// Tells the verifier what holds of every label in memory: it can be stored.
    fn confirm_storable(&self)
        ensures
            Self::valid(self.model()),
    ;
}

impl Label for String {
    /// A text shows as itself.
    open spec fn rendering(m: Seq<char>) -> Seq<char> {
        m
    }

    fn render(&self) -> (text: String) {
        self.clone()
    }

    fn confirm_storable(&self) {
        let n = utf8_len(self);
    }
}

impl Label for usize {
    /// A number shows in decimal.
    open spec fn rendering(m: usize) -> Seq<char> {
        decimal(m as nat)
    }

    fn render(&self) -> (text: String) {
        let mut text = String::new();
        push_decimal(&mut text, *self);
        assert(Seq::<char>::empty() + decimal(*self as nat) =~= decimal(*self as nat));
        text
    }

    fn confirm_storable(&self) {
    }
}

} // verus!
