use vstd::prelude::*;

verus! {

/// How groups of repeated lines would be separated in "all repeated" output.
#[derive(Clone, Copy, Debug, PartialEq, Eq, Structural)]
pub enum SepKind {
    SepNone,
    SepPrepend,
    SepSeparate,
}

/// The parsed state of the "all repeated" option: whether the flag was given
/// and which separation style its value asked for.
#[derive(Clone, Copy, Debug, PartialEq, Eq, Structural)]
pub struct RepeatedOpt {
    pub condition: bool,
    pub value: SepKind,
}

/// Wrapper for the "all repeated" option as it sits in the configuration.
#[derive(Clone, Copy, Debug, PartialEq, Eq, Structural)]
pub enum RepeatedTypeOpt {
    Value(RepeatedOpt),
}

/// The state of the "all repeated" option before any flag has been seen.
pub open spec fn default_repeated_opt() -> RepeatedTypeOpt {
    RepeatedTypeOpt::Value(RepeatedOpt { condition: false, value: SepKind::SepNone })
}

/// Builds the default "all repeated" option value at run time.
pub fn make_default_repeated_opt() -> (r: RepeatedTypeOpt)
    ensures
        r == default_repeated_opt(),
{
    RepeatedTypeOpt::Value(RepeatedOpt { condition: false, value: SepKind::SepNone })
}

} // verus!
