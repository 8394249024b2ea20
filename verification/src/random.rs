//! Chance: the shape and the colour of the next piece.

use vstd::prelude::*;
use crate::piece::Color;
use crate::shape::{ShapeTypes, SHAPE_COUNT};

verus! {

/// A number drawn from those below `bound`.
///
/// Trusted, not proved: the body calls `rand::Rng::gen_range` on the
/// generator of the thread, `rand::thread_rng()`, with the range from zero
/// up to and without `bound`. The contract claims of it what its
/// documentation says: that the range must not be empty, and that the number
/// lies in the range. That each number of the range is as likely as any
/// other is not stated here. The generator panics where the system gives it
/// no seed.
#[verifier::external_body]
fn random_below(bound: u32) -> (n: u32)
    requires
        bound > 0,
    ensures
        n < bound,
{
    rand::Rng::gen_range(&mut rand::thread_rng(), 0..bound)
}

/// A shape drawn from the catalog, each shape as likely as any other, so
/// that any shape may come: the one that `ShapeTypes::from_index` gives for
/// the number drawn.
pub fn random_shape() -> ShapeTypes {
    ShapeTypes::from_index(random_below(SHAPE_COUNT))
}

/// A colour whose red, green and blue are each drawn from all their values,
/// so that any colour may come.
pub fn generate_random_color() -> Color {
    let r = random_below(256);
    let g = random_below(256);
    let b = random_below(256);
    Color::from_parts(r, g, b)
}

} // verus!
