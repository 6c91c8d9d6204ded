use vstd::prelude::*;

verus! {

/// A configuration value that cannot be rendered, named by the offending field.
#[derive(Debug, Clone, Copy, PartialEq, Eq, Structural)]
pub enum ConfigError {
    /// The image width is zero.
    ZeroWidth,
    /// The image height is zero.
    ZeroHeight,
    /// The chunk tile edge is zero.
    ZeroTileSize,
    /// A sliding-window recurrence was given a window of length zero.
    ZeroWindow,
    /// A gradient was given no control point.
    EmptyGradient,
    /// Gradient thresholds are not strictly increasing inside `[0, 1]`.
    UnorderedGradient,
}

} // verus!
