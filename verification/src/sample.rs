//! The amplitude values that the engine mixes.

use vstd::prelude::*;

verus! {

/// One amplitude value of a mono signal.
///
/// The engine never looks inside a sample. It only starts from silence and
/// mixes samples onto each other, so a sample format is described by two
/// operations, each with the mathematical function that it computes.
/// An implementation outside verified code gives `silent` and `mixed` the
/// bodies of `silence` and `mix`.
pub trait Sample: Copy {
    /// The value of a sample that carries no signal.
    spec fn silent() -> Self;

    /// Returns the silent sample.
    fn silence() -> (s: Self)
        ensures
            s == Self::silent(),
    ;

    /// The value that results when `other` sounds on top of `self`.
    spec fn mixed(self, other: Self) -> Self;

    /// Mixes `other` onto `self`.
    fn mix(self, other: Self) -> (r: Self)
        ensures
            r == self.mixed(other),
    ;
}

} // verus!
