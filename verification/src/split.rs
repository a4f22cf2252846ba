//! Fragments ("split items"): contiguous runs of text produced by the
//! splitter, annotated with the position at which they were flushed.

use vstd::prelude::*;
use vstd::string::StringExecFns;
use crate::token::TokenPosition;

verus! {

/// Mathematical value of a [`SplitItem`]: its text as a character
/// sequence and its position as unbounded integers.
#[verifier::ext_equal]
pub ghost struct SplitItemV {
    pub text: Seq<char>,
    pub pos: int,
    pub line: int,
}

#[derive(Debug, PartialEq, Clone)]
pub struct SplitItem {
    pub text: String,
    pub position: TokenPosition,
}

impl View for SplitItem {
    type V = SplitItemV;

    open spec fn view(&self) -> SplitItemV {
        SplitItemV {
            text: self.text@,
            pos: self.position.position as int,
            line: self.position.line as int,
        }
    }
}

impl SplitItem {
    pub fn new(text: String, position: TokenPosition) -> (r: SplitItem)
        ensures
            r@ == (SplitItemV {
                text: text@,
                pos: position.position as int,
                line: position.line as int,
            }),
    {
        SplitItem { text, position }
    }

    pub fn new_pl(text: String, position: i32, line: i32) -> (r: SplitItem)
        ensures
            r@ == (SplitItemV { text: text@, pos: position as int, line: line as int }),
    {
        SplitItem { text, position: TokenPosition::new(position, line) }
    }

    /// Concatenates the texts and combines the positions component-wise
    /// (the latest observed column and line).
    pub fn add(self, rhs: SplitItem) -> (r: SplitItem)
        ensures
            r@.text == self@.text + rhs@.text,
            r@.pos == if self@.pos > rhs@.pos {
                self@.pos
            } else {
                rhs@.pos
            },
            r@.line == if self@.line > rhs@.line {
                self@.line
            } else {
                rhs@.line
            },
    {
        let text = self.text.concat(rhs.text.as_str());
        SplitItem { text, position: self.position.add(rhs.position) }
    }
}

/// The views of a sequence of split items.
pub open spec fn item_views(s: Seq<SplitItem>) -> Seq<SplitItemV> {
    s.map_values(|x: SplitItem| x@)
}

} // verus!
