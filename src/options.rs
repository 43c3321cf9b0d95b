//! How much the operator is asked to confirm.
use vstd::prelude::*;

verus! {

/// The automation level, from asking nothing to reviewing every version.
#[derive(PartialEq, Eq, Structural, Clone, Copy, Debug)]
pub enum AutoConfirmLevel {
    /// Nothing is asked: removals go ahead and ambiguous groups are all kept.
    Nothing,
    /// Removals are confirmed; ambiguous groups are listed and all kept.
    Removal,
    /// Removals are confirmed, and the operator settles each ambiguous group.
    Ambiguities,
    /// As `Ambiguities`, and older versions are shown for review too.
    Everything,
}

impl AutoConfirmLevel {
    /// Whether removals are confirmed before they happen.
    pub fn is_at_least_removal(&self) -> (r: bool)
        ensures
            r == !(*self == AutoConfirmLevel::Nothing),
    {
        !matches!(self, AutoConfirmLevel::Nothing)
    }

    /// Whether the operator settles ambiguous groups.
    pub fn is_at_least_ambiguities(&self) -> (r: bool)
        ensures
            r == (*self == AutoConfirmLevel::Ambiguities || *self == AutoConfirmLevel::Everything),
    {
        matches!(self, AutoConfirmLevel::Ambiguities | AutoConfirmLevel::Everything)
    }

    /// Whether every version, older ones included, goes to the operator.
    pub fn is_everything(&self) -> (r: bool)
        ensures
            r == (*self == AutoConfirmLevel::Everything),
    {
        matches!(self, AutoConfirmLevel::Everything)
    }
}

} // verus!
