//! The modes that trade precision of the analysis for speed or for safety.

use vstd::prelude::*;
use vstd::string::StringExecFns;

verus! {

/// Whether a reference that cannot be written through is told apart from one
/// that can.
#[derive(Debug, PartialEq, Eq, Clone, Copy, Hash, Structural)]
pub enum MutabilityMode {
    DistinguishMut,
    IgnoreMut,
}

/// Whether a call is summarised from its signature or looked into.
#[derive(Debug, PartialEq, Eq, Clone, Copy, Hash, Structural)]
pub enum ContextMode {
    SigOnly,
    Recurse,
}

/// Whether regions are taken as the borrow checker gives them, or pointers to
/// one type are taken to alias whatever their regions.
#[derive(Debug, PartialEq, Eq, Clone, Copy, Hash, Structural)]
pub enum PointerMode {
    Precise,
    Conservative,
}

/// One choice for each mode.
#[derive(Debug, PartialEq, Eq, Clone, Copy, Hash, Structural)]
pub struct EvalMode {
    pub mutability_mode: MutabilityMode,
    pub context_mode: ContextMode,
    pub pointer_mode: PointerMode,
}

/// The message for a name that is no mode.
pub open spec fn parse_error(s: Seq<char>) -> Seq<char> {
    "Could not parse: "@ + s
}

fn same_text(a: &str, b: &str) -> (r: bool)
    ensures
        r == (a@ == b@),
{
    let x = String::from_str(a);
    let y = String::from_str(b);
    x == y
}

fn could_not_parse(s: &str) -> (r: String)
    ensures
        r@ == parse_error(s@),
{
    String::from_str("Could not parse: ").concat(s)
}

impl MutabilityMode {
    /// The mode with this name.
    pub fn parse(s: &str) -> (r: Result<MutabilityMode, String>)
        ensures
            match r {
                Ok(m) => (s@ == "DistinguishMut"@ && m == MutabilityMode::DistinguishMut) || (s@
                    == "IgnoreMut"@ && m == MutabilityMode::IgnoreMut),
                Err(e) => s@ != "DistinguishMut"@ && s@ != "IgnoreMut"@ && e@ == parse_error(s@),
            },
    {
        if same_text(s, "DistinguishMut") {
            Ok(MutabilityMode::DistinguishMut)
        } else if same_text(s, "IgnoreMut") {
            Ok(MutabilityMode::IgnoreMut)
        } else {
            Err(could_not_parse(s))
        }
    }
}

impl ContextMode {
    /// The mode with this name.
    pub fn parse(s: &str) -> (r: Result<ContextMode, String>)
        ensures
            match r {
                Ok(m) => (s@ == "SigOnly"@ && m == ContextMode::SigOnly) || (s@ == "Recurse"@ && m
                    == ContextMode::Recurse),
                Err(e) => s@ != "SigOnly"@ && s@ != "Recurse"@ && e@ == parse_error(s@),
            },
    {
        if same_text(s, "SigOnly") {
            Ok(ContextMode::SigOnly)
        } else if same_text(s, "Recurse") {
            Ok(ContextMode::Recurse)
        } else {
            Err(could_not_parse(s))
        }
    }
}

impl PointerMode {
    /// The mode with this name.
    pub fn parse(s: &str) -> (r: Result<PointerMode, String>)
        ensures
            match r {
                Ok(m) => (s@ == "Precise"@ && m == PointerMode::Precise) || (s@ == "Conservative"@
                    && m == PointerMode::Conservative),
                Err(e) => s@ != "Precise"@ && s@ != "Conservative"@ && e@ == parse_error(s@),
            },
    {
        if same_text(s, "Precise") {
            Ok(PointerMode::Precise)
        } else if same_text(s, "Conservative") {
            Ok(PointerMode::Conservative)
        } else {
            Err(could_not_parse(s))
        }
    }
}

impl std::str::FromStr for MutabilityMode {
    type Err = String;

    /// The mode with this name; the error says which name was no mode.
    fn from_str(s: &str) -> (r: Result<MutabilityMode, String>)
        ensures
            match r {
                Ok(m) => (s@ == "DistinguishMut"@ && m == MutabilityMode::DistinguishMut) || (s@ == "IgnoreMut"@ && m
                    == MutabilityMode::IgnoreMut),
                Err(e) => s@ != "DistinguishMut"@ && s@ != "IgnoreMut"@ && e@ == parse_error(s@),
            },
    {
        MutabilityMode::parse(s)
    }
}

impl std::str::FromStr for ContextMode {
    type Err = String;

    /// The mode with this name; the error says which name was no mode.
    fn from_str(s: &str) -> (r: Result<ContextMode, String>)
        ensures
            match r {
                Ok(m) => (s@ == "SigOnly"@ && m == ContextMode::SigOnly) || (s@ == "Recurse"@ && m
                    == ContextMode::Recurse),
                Err(e) => s@ != "SigOnly"@ && s@ != "Recurse"@ && e@ == parse_error(s@),
            },
    {
        ContextMode::parse(s)
    }
}

impl std::str::FromStr for PointerMode {
    type Err = String;

    /// The mode with this name; the error says which name was no mode.
    fn from_str(s: &str) -> (r: Result<PointerMode, String>)
        ensures
            match r {
                Ok(m) => (s@ == "Precise"@ && m == PointerMode::Precise) || (s@ == "Conservative"@ && m
                    == PointerMode::Conservative),
                Err(e) => s@ != "Precise"@ && s@ != "Conservative"@ && e@ == parse_error(s@),
            },
    {
        PointerMode::parse(s)
    }
}

impl Default for EvalMode {
    /// The most precise analysis that looks into no call.
    fn default() -> (r: EvalMode)
        ensures
            r == (EvalMode {
                mutability_mode: MutabilityMode::DistinguishMut,
                context_mode: ContextMode::SigOnly,
                pointer_mode: PointerMode::Precise,
            }),
    {
        EvalMode {
            mutability_mode: MutabilityMode::DistinguishMut,
            context_mode: ContextMode::SigOnly,
            pointer_mode: PointerMode::Precise,
        }
    }
}

/// Whether the mode in force meets `f`. With no mode in force nothing is
/// active.
pub fn is_extension_active<F: Fn(EvalMode) -> bool>(mode: Option<EvalMode>, f: F) -> (r: bool)
    requires
        mode matches Some(m) ==> call_requires(f, (m,)),
    ensures
        match mode {
            Some(m) => call_ensures(f, (m,), r),
            None => !r,
        },
{
    match mode {
        Some(m) => f(m),
        None => false,
    }
}

} // verus!
