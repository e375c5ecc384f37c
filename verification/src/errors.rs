//! The texts of errors.

use vstd::prelude::*;

verus! {

/// What an error says.
#[derive(Debug)]
pub struct ErrorText {
    /// The text of the error itself.
    pub message: String,
    /// The same text, with the texts of the causes of the error behind it.
    pub chain: String,
}

/// What an [`ErrorText`] stands for.
pub struct ErrorModel {
    pub message: Seq<char>,
    pub chain: Seq<char>,
}

impl View for ErrorText {
    type V = ErrorModel;

    open spec fn view(&self) -> ErrorModel {
        ErrorModel { message: self.message@, chain: self.chain@ }
    }
}

impl Clone for ErrorText {
    fn clone(&self) -> (r: Self)
        ensures
            r@ == self@,
    {
        ErrorText { message: self.message.clone(), chain: self.chain.clone() }
    }
}

/// The view of a text or of the error that stands in its place.
pub open spec fn text_result(r: Result<String, ErrorText>) -> Result<Seq<char>, ErrorModel> {
    match r {
        Ok(text) => Ok(text@),
        Err(error) => Err(error@),
    }
}

} // verus!
