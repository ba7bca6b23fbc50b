//! How serious a finding is: information, a warning, or an error that
//! breaks conformance. Severities are ordered `Info < Warning < Error`.
use vstd::prelude::*;
use crate::text::str_eq;

verus! {

broadcast use vstd::string::group_string_axioms;

/// The severity of a finding.
#[derive(Clone, Copy, Debug, PartialEq, Eq, PartialOrd, Ord, Hash, Structural)]
pub enum Severity {
    /// Informational: worth knowing, nothing to fix.
    Info,
    /// Something that should be fixed but does not break conformance.
    Warning,
    /// A conformance violation.
    Error,
}

/// The lowercase name of a severity.
pub open spec fn severity_name(s: Severity) -> Seq<char> {
    match s {
        Severity::Info => "info"@,
        Severity::Warning => "warning"@,
        Severity::Error => "error"@,
    }
}

/// The severity a name spells (`warn` is accepted for a warning).
pub open spec fn severity_from_name(s: Seq<char>) -> Option<Severity> {
    if s == "info"@ {
        Some(Severity::Info)
    } else if s == "warning"@ || s == "warn"@ {
        Some(Severity::Warning)
    } else if s == "error"@ {
        Some(Severity::Error)
    } else {
        None
    }
}

/// The rank of a severity in the order `Info < Warning < Error`.
pub open spec fn rank(s: Severity) -> int {
    match s {
        Severity::Info => 0,
        Severity::Warning => 1,
        Severity::Error => 2,
    }
}

/// A string that names no severity.
#[derive(Clone, Debug, PartialEq, Eq)]
pub struct ParseSeverityError(pub String);

impl Severity {
    /// The lowercase name.
    pub fn as_str(&self) -> (r: &'static str)
        ensures
            r@ == severity_name(*self),
    {
        match self {
            Severity::Info => "info",
            Severity::Warning => "warning",
            Severity::Error => "error",
        }
    }

    /// The lowercase name (see [`Severity::as_str`]).
    pub fn as_ref(&self) -> (r: &'static str)
        ensures
            r@ == severity_name(*self),
    {
        self.as_str()
    }

    /// The lowercase name as an owned string.
    pub fn to_string(&self) -> (r: String)
        ensures
            r@ == severity_name(*self),
    {
        self.as_str().to_string()
    }

    /// Parses a severity name.
    pub fn parse_name(s: &str) -> (r: Result<Severity, ParseSeverityError>)
        ensures
            match r {
                Ok(v) => severity_from_name(s@) == Some(v),
                Err(e) => severity_from_name(s@) is None && e.0@ == s@,
            },
    {
        if str_eq(s, "info") {
            Ok(Severity::Info)
        } else if str_eq(s, "warning") || str_eq(s, "warn") {
            Ok(Severity::Warning)
        } else if str_eq(s, "error") {
            Ok(Severity::Error)
        } else {
            Err(ParseSeverityError(s.to_string()))
        }
    }

    /// Whether this severity is at least as serious as `other`.
    pub fn at_least(&self, other: &Severity) -> (r: bool)
        ensures
            r == (rank(*self) >= rank(*other)),
    {
        let a: u8 = match self {
            Severity::Info => 0,
            Severity::Warning => 1,
            Severity::Error => 2,
        };
        let b: u8 = match other {
            Severity::Info => 0,
            Severity::Warning => 1,
            Severity::Error => 2,
        };
        a >= b
    }
}

impl std::str::FromStr for Severity {
    type Err = ParseSeverityError;

    fn from_str(s: &str) -> Result<Severity, ParseSeverityError> {
        Severity::parse_name(s)
    }
}

} // verus!
