use vstd::prelude::*;

verus! {

/// What the lexer reads: words, the two keywords, brackets and the colon.
#[derive(PartialEq, Debug)]
pub enum Token {
    Word(String),
    /// `.struct`
    Struct,
    /// `.enum`
    Enum,
    /// `[`
    BracketLeft,
    /// `]`
    BracketRight,
    /// `:`
    Colon,
    /// The end of the input.
    End,
}

/// A token with its word as a sequence of characters.
pub enum TokenView {
    Word(Seq<char>),
    Struct,
    Enum,
    BracketLeft,
    BracketRight,
    Colon,
    End,
}

impl View for Token {
    type V = TokenView;

    open spec fn view(&self) -> TokenView {
        match self {
            Token::Word(w) => TokenView::Word(w@),
            Token::Struct => TokenView::Struct,
            Token::Enum => TokenView::Enum,
            Token::BracketLeft => TokenView::BracketLeft,
            Token::BracketRight => TokenView::BracketRight,
            Token::Colon => TokenView::Colon,
            Token::End => TokenView::End,
        }
    }
}

} // verus!
