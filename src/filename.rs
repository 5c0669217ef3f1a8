//! The name of a formatter input.
use vstd::prelude::*;
use vstd::string::StringExecFns;

verus! {

/// Where an input comes from: a file, by its path, or standard input.
#[derive(Debug)]
pub enum Filename {
    Real(String),
    Stdin,
}

impl Filename {
    /// How the input is named in messages.
    pub open spec fn spec_name(&self) -> Seq<char> {
        match self {
            Filename::Real(p) => p@,
            Filename::Stdin => "<stdin>"@,
        }
    }

    /// How the input is named in messages: its path, or `<stdin>`.
    pub fn to_string(&self) -> (r: String)
        ensures
            r@ == self.spec_name(),
    {
        match self {
            Filename::Real(p) => p.clone(),
            Filename::Stdin => String::from_str("<stdin>"),
        }
    }
}

} // verus!
