//! The lexical unit a segmentation emits.

use vstd::prelude::*;

verus! {

/// One lexical unit of a segmentation.
///
/// `byte_start` and `byte_end` are byte offsets into the UTF-8
/// encoding of the *original* text, before any character filter ran.
/// `position` is the ordinal index of the token in the output
/// sequence and `position_length` the number of lattice nodes the
/// token stands for (greater than one only after compounding).
/// `details` is the ordered list of metadata fields the dictionary
/// defines for the matched entry.
#[derive(Clone, Debug)]
pub struct Token {
    pub text: String,
    pub byte_start: usize,
    pub byte_end: usize,
    pub position: usize,
    pub position_length: usize,
    pub details: Vec<String>,
}

/// The mathematical shape of a token: every contract about tokens
/// speaks of this view.
pub ghost struct TokenView {
    pub text: Seq<char>,
    pub byte_start: int,
    pub byte_end: int,
    pub position: int,
    pub position_length: int,
    pub details: Seq<Seq<char>>,
}

impl View for Token {
    type V = TokenView;

    open spec fn view(&self) -> TokenView {
        TokenView {
            text: self.text@,
            byte_start: self.byte_start as int,
            byte_end: self.byte_end as int,
            position: self.position as int,
            position_length: self.position_length as int,
            details: self.details.deep_view(),
        }
    }
}

/// The views of a token sequence.
pub open spec fn tokens_view(ts: Seq<Token>) -> Seq<TokenView> {
    ts.map_values(|t: Token| t@)
}

impl Token {
    /// Builds a token from its parts.
    pub fn new(
        text: String,
        byte_start: usize,
        byte_end: usize,
        position: usize,
        position_length: usize,
        details: Vec<String>,
    ) -> (r: Token)
        ensures
            r@.text == text@,
            r@.byte_start == byte_start as int,
            r@.byte_end == byte_end as int,
            r@.position == position as int,
            r@.position_length == position_length as int,
            r@.details == details.deep_view(),
    {
        Token { text, byte_start, byte_end, position, position_length, details }
    }
}

} // verus!
