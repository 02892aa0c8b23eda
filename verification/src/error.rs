use vstd::prelude::*;
use vstd::std_specs::convert::FromSpecImpl;

verus! {

/// The error of a failed read or write.
#[verifier::external_type_specification]
#[verifier::external_body]
pub struct ExIoError(std::io::Error);

/// The error of a failed integer parse.
#[verifier::external_type_specification]
#[verifier::external_body]
pub struct ExParseIntError(std::num::ParseIntError);

/// The error of a pattern that does not compile.
#[verifier::external_type_specification]
#[verifier::external_body]
pub struct ExRegexError(regex::Error);

/// Why a search could not be carried out.
#[derive(Debug)]
pub enum CliError {
    /// Reading the input or writing the output failed.
    Io(std::io::Error),
    /// A context size is not a decimal number that fits a `usize`.
    Parse(std::num::ParseIntError),
    /// The pattern is not a valid regular expression.
    Regex(regex::Error),
}

impl From<std::io::Error> for CliError {
    fn from(err: std::io::Error) -> (r: Self) {
        CliError::Io(err)
    }
}

impl FromSpecImpl<std::io::Error> for CliError {
    open spec fn obeys_from_spec() -> bool {
        true
    }

    open spec fn from_spec(err: std::io::Error) -> CliError {
        CliError::Io(err)
    }
}

impl From<std::num::ParseIntError> for CliError {
    fn from(err: std::num::ParseIntError) -> (r: Self) {
        CliError::Parse(err)
    }
}

impl FromSpecImpl<std::num::ParseIntError> for CliError {
    open spec fn obeys_from_spec() -> bool {
        true
    }

    open spec fn from_spec(err: std::num::ParseIntError) -> CliError {
        CliError::Parse(err)
    }
}

impl From<regex::Error> for CliError {
    fn from(err: regex::Error) -> (r: Self) {
        CliError::Regex(err)
    }
}

impl FromSpecImpl<regex::Error> for CliError {
    open spec fn obeys_from_spec() -> bool {
        true
    }

    open spec fn from_spec(err: regex::Error) -> CliError {
        CliError::Regex(err)
    }
}

} // verus!
