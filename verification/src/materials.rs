//! Plain models of the per-chunk terrain materials. The library holds only
//! plain values — texture slots are resource identifiers, positions are
//! fixed-point — while the engine-facing copies with shader bindings live in
//! the application crate and convert from these.

use vstd::prelude::*;

verus! {

/// The ground material of one chunk: the chunk's base position (fixed-point
/// steps, see the coordinate transforms) and up to four texture layers, the
/// last three blended through alpha maps. A bound slot holds the texture's
/// resource identifier.
#[derive(Debug, Clone, Copy, Default)]
pub struct CustomMaterial {
    pub base_position_x: i64,
    pub base_position_y: i64,
    pub layer_1: Option<u64>,
    pub layer_2: Option<u64>,
    pub alpha_2: Option<u64>,
    pub layer_3: Option<u64>,
    pub alpha_3: Option<u64>,
    pub layer_4: Option<u64>,
    pub alpha_4: Option<u64>,
}

/// The water surface material. It carries no parameters; the renderer draws
/// it as a blended translucent plane.
#[derive(Debug, Clone, Copy, Default)]
pub struct WaterMaterial {}

/// Widen alpha-map values from the stored 0..=15 range to the full byte
/// range by multiplying each by 17, so that 15 becomes 255. Values outside
/// the stored range are a caller contract violation.
pub fn scale_alpha(data: &Vec<u8>) -> (r: Vec<u8>)
    requires
        forall|i: int| 0 <= i < data@.len() ==> (#[trigger] data@[i]) < 16,
    ensures
        r@.len() == data@.len(),
        forall|i: int| 0 <= i < data@.len() ==> (#[trigger] r@[i]) == 17 * data@[i],
{
    let mut r: Vec<u8> = Vec::new();
    let mut i: usize = 0;
    while i < data.len()
        invariant
            i <= data@.len(),
            r@.len() == i,
            forall|j: int| 0 <= j < data@.len() ==> (#[trigger] data@[j]) < 16,
            forall|j: int| 0 <= j < i ==> (#[trigger] r@[j]) == 17 * data@[j],
        decreases data@.len() - i,
    {
        r.push(17 * data[i]);
        i = i + 1;
    }
    r
}

} // verus!
