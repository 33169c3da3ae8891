use vstd::prelude::*;

verus! {

/// What can be wrong with data handed in across a foreign-call boundary.
#[derive(Clone, Copy, Debug, PartialEq, Eq, Structural)]
pub enum CInputError {
    NullPointerError,
    AlignmentError,
    IndexError,
}

/// Status codes returned across a foreign-call boundary.
#[derive(Clone, Copy, Debug, PartialEq, Eq, Structural)]
pub enum ExitCode {
    Success,
    CInputError,
    NullPointerError,
    AlignmentError,
    IndexError,
}

impl ExitCode {
    pub open spec fn code_spec(self) -> u32 {
        match self {
            ExitCode::Success => 0,
            ExitCode::CInputError => 100,
            ExitCode::NullPointerError => 101,
            ExitCode::AlignmentError => 102,
            ExitCode::IndexError => 103,
        }
    }

    /// The numeric status: 0 for success, 100 and up for errors in the input.
    pub fn code(&self) -> (r: u32)
        ensures
            r == self.code_spec(),
    {
        match self {
            ExitCode::Success => 0,
            ExitCode::CInputError => 100,
            ExitCode::NullPointerError => 101,
            ExitCode::AlignmentError => 102,
            ExitCode::IndexError => 103,
        }
    }
}

pub open spec fn exit_code_of(e: CInputError) -> ExitCode {
    match e {
        CInputError::AlignmentError => ExitCode::AlignmentError,
        CInputError::NullPointerError => ExitCode::NullPointerError,
        CInputError::IndexError => ExitCode::IndexError,
    }
}

impl From<CInputError> for ExitCode {
    fn from(value: CInputError) -> (r: ExitCode)
        ensures
            r == exit_code_of(value),
    {
        match value {
            CInputError::AlignmentError => ExitCode::AlignmentError,
            CInputError::NullPointerError => ExitCode::NullPointerError,
            CInputError::IndexError => ExitCode::IndexError,
        }
    }
}

impl vstd::std_specs::convert::FromSpecImpl<CInputError> for ExitCode {
    open spec fn obeys_from_spec() -> bool {
        true
    }

    open spec fn from_spec(v: CInputError) -> ExitCode {
        exit_code_of(v)
    }
}

} // verus!
