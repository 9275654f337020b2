//! 24-bit color triples shared by the reveal and pulse animations.

use vstd::prelude::*;

verus! {

/// 24-bit RGB triple.
///
/// Deliberately not tied to any renderer's color type: map the three
/// components at the call site.
#[derive(Debug, Clone, Copy, PartialEq, Eq, Structural)]
pub struct Rgb(pub u8, pub u8, pub u8);

} // verus!
