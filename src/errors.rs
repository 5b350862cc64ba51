use vstd::prelude::*;

verus! {

/// What can go wrong while planning a backup.
#[derive(Debug, PartialEq, Eq, Structural)]
pub enum Error {
    /// A unit set had no unit to give away.
    EmptyUnitSet,
    /// A path does not lie under the prefix it was given.
    NotUnderPrefix,
    /// A unit is larger than one medium.
    MediumOverflow,
    /// A total length does not fit in its integer type.
    LengthOverflow,
    /// The operating system's random source failed.
    Random,
    /// There are more media than names for them.
    OutOfNames,
    /// More media would be needed than a `usize` can count.
    TooManyMedia,
}

} // verus!
