//! Errors that the library reports to its caller.

use vstd::prelude::*;
use vstd::string::*;

verus! {

/// What can go wrong while a status is derived or an option is read.
#[derive(Debug)]
pub enum Error {
    /// The repository could not be read; the text says which step failed.
    Jj(String),
    /// A length option was given a negative value; holds the option's name.
    NegativeOption(String),
    /// A length option does not fit the machine's word; holds the option's name.
    OptionTooLarge(String),
}

impl Error {
    /// The text shown to the user for this error.
    pub open spec fn message_text(&self) -> Seq<char> {
        match self {
            Error::Jj(detail) => "jj: "@ + detail@,
            Error::NegativeOption(name) => "--"@ + name@ + " must be non-negative"@,
            Error::OptionTooLarge(name) => "--"@ + name@ + " is too large"@,
        }
    }

    /// Renders the error as the text shown to the user.
    pub fn message(&self) -> (text: String)
        ensures
            text@ == self.message_text(),
    {
        match self {
            Error::Jj(detail) => {
                let mut text = String::from_str("jj: ");
                text.append(detail.as_str());
                text
            },
            Error::NegativeOption(name) => {
                let mut text = String::from_str("--");
                text.append(name.as_str());
                text.append(" must be non-negative");
                text
            },
            Error::OptionTooLarge(name) => {
                let mut text = String::from_str("--");
                text.append(name.as_str());
                text.append(" is too large");
                text
            },
        }
    }
}

/// The text of an error about a length option names the option, right
/// after the two dashes.
pub proof fn lemma_message_names_option(error: Error)
    ensures
        match error {
            Error::NegativeOption(name) => error.message_text().subrange(
                2,
                2 + name@.len() as int,
            ) == name@,
            Error::OptionTooLarge(name) => error.message_text().subrange(
                2,
                2 + name@.len() as int,
            ) == name@,
            Error::Jj(_) => true,
        },
{
    reveal_strlit("--");
    match error {
        Error::NegativeOption(name) => {
            assert(error.message_text().subrange(2, 2 + name@.len() as int) =~= name@);
        },
        Error::OptionTooLarge(name) => {
            assert(error.message_text().subrange(2, 2 + name@.len() as int) =~= name@);
        },
        Error::Jj(_) => {},
    }
}

} // verus!
