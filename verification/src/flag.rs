use vstd::prelude::*;

verus! {

/// The options that change what is printed for a search.
#[derive(Debug)]
pub struct Flags {
    /// Print only the number of matching lines.
    pub count: bool,
    /// Prefix every printed line with its 1-based line number.
    pub line_number: bool,
    /// Colour the matched text.
    pub highlight: bool,
    /// Match without regard to letter case.
    pub ignore_case: bool,
    /// Select the lines that do not match.
    pub no_match: bool,
}

impl Flags {
    /// All options off.
    pub open spec fn all_off(self) -> bool {
        &&& !self.count
        &&& !self.line_number
        &&& !self.highlight
        &&& !self.ignore_case
        &&& !self.no_match
    }

    /// A set of flags with every option off.
    pub fn new() -> (flags: Self)
        ensures
            flags.all_off(),
    {
        Flags { count: false, line_number: false, highlight: false, ignore_case: false, no_match: false }
    }
}

impl Default for Flags {
    fn default() -> (flags: Self)
        ensures
            flags.all_off(),
    {
        Flags::new()
    }
}

} // verus!
