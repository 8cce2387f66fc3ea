use vstd::prelude::*;
use vstd::string::StringExecFns;

verus! {

/// Why a line of the methylation track could not be read.
#[derive(Debug, Clone, Copy, PartialEq, Eq, Structural)]
pub enum ParseError {
    /// The line has no field where the start offset or the methylation level should stand.
    MissingField,
    /// The start offset is no decimal number, or its successor does not fit an offset.
    InvalidPosition,
    /// The methylation level is no decimal number.
    InvalidMethylation,
}

impl ParseError {
    /// What the error says, in words.
    pub open spec fn spec_message(&self) -> Seq<char> {
        match self {
            ParseError::MissingField => "Missing field"@,
            ParseError::InvalidPosition => "Invalid position value"@,
            ParseError::InvalidMethylation => "Invalid methylation value"@,
        }
    }

    /// What the error says, in words.
    pub fn message(&self) -> (r: &'static str)
        ensures
            r@ == self.spec_message(),
    {
        match self {
            ParseError::MissingField => "Missing field",
            ParseError::InvalidPosition => "Invalid position value",
            ParseError::InvalidMethylation => "Invalid methylation value",
        }
    }
}

/// A candidate's chromosome is not among the references of the alignment store.
#[derive(Debug, Clone, PartialEq, Eq)]
pub struct LookupError {
    chromosome: String,
}

impl View for LookupError {
    type V = Seq<char>;

    /// The name of the chromosome that was not found.
    closed spec fn view(&self) -> Seq<char> {
        self.chromosome@
    }
}

impl LookupError {
    /// The error that names this chromosome.
    pub fn new(chromosome: String) -> (r: Self)
        ensures
            r@ == chromosome@,
    {
        LookupError { chromosome }
    }

    /// The name of the chromosome that was not found.
    pub fn chromosome(&self) -> (r: &String)
        ensures
            r@ == self@,
    {
        &self.chromosome
    }

    /// What the error says, in words: it names the chromosome.
    pub fn message(&self) -> (r: String)
        ensures
            r@ == "Chromosome "@ + self@ + " not found in BAM file header"@,
    {
        String::from_str("Chromosome ").concat(self.chromosome.as_str()).concat(
            " not found in BAM file header",
        )
    }
}

} // verus!
