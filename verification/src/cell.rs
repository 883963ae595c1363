use vstd::prelude::*;

verus! {

/// The error states a cell can evaluate to.
#[derive(Debug, Clone, Copy, PartialEq, Eq, Structural)]
pub enum CellError {
    Syntax,
    DivByZero,
    Circular,
    Ref,
    Value,
}

/// The text shown in a cell that evaluated to `e`.
pub open spec fn error_text(e: CellError) -> Seq<char> {
    match e {
        CellError::Syntax => "#SYNTAX!"@,
        CellError::DivByZero => "#DIV/0!"@,
        CellError::Circular => "#CIRCULAR!"@,
        CellError::Ref => "#REF!"@,
        CellError::Value => "#VALUE!"@,
    }
}

impl CellError {
    /// The display text of this error.
    pub fn as_str(&self) -> (s: &'static str)
        ensures
            s@ == error_text(*self),
    {
        match self {
            CellError::Syntax => "#SYNTAX!",
            CellError::DivByZero => "#DIV/0!",
            CellError::Circular => "#CIRCULAR!",
            CellError::Ref => "#REF!",
            CellError::Value => "#VALUE!",
        }
    }
}

} // verus!
