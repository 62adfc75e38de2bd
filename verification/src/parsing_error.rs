//! Parse errors: every failure is fatal and carries the 1-based number of the
//! offending line where one is known.

use vstd::prelude::*;

verus! {

/// Why a decimal literal was rejected.
#[derive(Debug, Clone, Copy, PartialEq, Eq, Structural)]
pub enum NumberError {
    Empty,
    InvalidDigit,
    PosOverflow,
    NegOverflow,
}

/// A parse failure, before a line number is attached.
#[derive(Debug)]
pub enum InnerParsingError {
    /// A required token was not found before the input ended.
    TokenExpected(String),
    /// Something else stood where a specific token was required.
    TokenUnexpected { expected: String, found: String },
    /// A sensor name occurs twice in the reference line.
    SensorNameDuplicate(String),
    /// A config key occurs twice in the config line.
    ConfigDuplicate(&'static str),
    /// A mandatory config key is absent.
    ConfigMissing(&'static str),
    /// A config key outside the supported set.
    ConfigUnknownKey(String),
    /// A config value outside the enumerated set of its key.
    ConfigUnsupportedValue { value: String, key: String, valid_values: Vec<&'static str> },
    /// A malformed or out-of-range integer literal.
    NumberParsing(NumberError),
}

/// A parse failure, attributed to a line where one is known.
#[derive(Debug)]
pub struct ParsingError {
    pub line: Option<usize>,
    pub inner: InnerParsingError,
}

/// The views of a sequence of string slices.
pub open spec fn strs_view(vs: Seq<&str>) -> Seq<Seq<char>> {
    vs.map_values(|v: &str| v@)
}

/// Spec-level value of an [`InnerParsingError`].
pub enum ErrV {
    TokenExpected(Seq<char>),
    TokenUnexpected { expected: Seq<char>, found: Seq<char> },
    SensorNameDuplicate(Seq<char>),
    ConfigDuplicate(Seq<char>),
    ConfigMissing(Seq<char>),
    ConfigUnknownKey(Seq<char>),
    ConfigUnsupportedValue { value: Seq<char>, key: Seq<char>, valid_values: Seq<Seq<char>> },
    NumberParsing(NumberError),
}

/// Spec-level value of a [`ParsingError`].
pub struct PErrV {
    pub line: Option<int>,
    pub inner: ErrV,
}

impl PErrV {
    /// The same failure attributed to line `num`.
    pub open spec fn at_line(inner: ErrV, num: int) -> PErrV {
        PErrV { line: Some(num), inner }
    }

    /// The same failure with no line attribution.
    pub open spec fn no_line(inner: ErrV) -> PErrV {
        PErrV { line: None, inner }
    }
}

impl View for InnerParsingError {
    type V = ErrV;

    open spec fn view(&self) -> ErrV {
        match self {
            InnerParsingError::TokenExpected(t) => ErrV::TokenExpected(t@),
            InnerParsingError::TokenUnexpected { expected, found } => ErrV::TokenUnexpected {
                expected: expected@,
                found: found@,
            },
            InnerParsingError::SensorNameDuplicate(n) => ErrV::SensorNameDuplicate(n@),
            InnerParsingError::ConfigDuplicate(k) => ErrV::ConfigDuplicate(k@),
            InnerParsingError::ConfigMissing(k) => ErrV::ConfigMissing(k@),
            InnerParsingError::ConfigUnknownKey(k) => ErrV::ConfigUnknownKey(k@),
            InnerParsingError::ConfigUnsupportedValue { value, key, valid_values } => {
                ErrV::ConfigUnsupportedValue {
                    value: value@,
                    key: key@,
                    valid_values: strs_view(valid_values@),
                }
            },
            InnerParsingError::NumberParsing(e) => ErrV::NumberParsing(*e),
        }
    }
}

impl View for ParsingError {
    type V = PErrV;

    open spec fn view(&self) -> PErrV {
        PErrV {
            line: match self.line {
                Some(n) => Some(n as int),
                None => None,
            },
            inner: self.inner@,
        }
    }
}

impl InnerParsingError {
    /// Attributes the failure to line `line`.
    pub fn at(self, line: usize) -> (r: ParsingError)
        ensures
            r@ == PErrV::at_line(self@, line as int),
    {
        ParsingError { line: Some(line), inner: self }
    }

    /// Wraps the failure with no line attribution.
    pub fn without_line(self) -> (r: ParsingError)
        ensures
            r@ == PErrV::no_line(self@),
    {
        ParsingError { line: None, inner: self }
    }
}

} // verus!
