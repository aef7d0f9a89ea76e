//! Small pieces of viewport state: hover state of the camera widget, the
//! orientation of a tile divider, and the per-tile camera cache key.

use vstd::prelude::*;

verus! {

/// Hover state of the camera widget: which view-cube region, if any, is under
/// the cursor.
#[derive(Clone, Debug)]
pub struct CameraState {
    pub hover_region: Option<usize>,
}

impl Default for CameraState {
    fn default() -> (s: Self)
        ensures
            s.hover_region is None,
    {
        CameraState { hover_region: None }
    }
}

/// Orientation of an inner divider between model tiles.
#[derive(Copy, Clone, Debug, PartialEq, Eq, Structural)]
pub enum TileEdgeOrient {
    Vertical,
    Horizontal,
}

/// Start value of the camera hash (the FNV-1a offset basis).
pub const CAMERA_HASH_SEED: u64 = 0xcbf2_9ce4_8422_2325;

/// One mixing step: rotate the state left by 13 bits, then xor in `x`.
pub open spec fn hash_step(s: u64, x: u32) -> u64 {
    ((s << 13u64) | (s >> 51u64)) ^ (x as u64)
}

/// Hash of a camera pose given as the bit patterns of its eight components
/// (target x, y, z; rotation x, y, z, w; distance), mixed in that order.
pub open spec fn spec_camera_state_hash(b: [u32; 8]) -> u64 {
    hash_step(
        hash_step(
            hash_step(
                hash_step(
                    hash_step(
                        hash_step(hash_step(hash_step(CAMERA_HASH_SEED, b[0]), b[1]), b[2]),
                        b[3],
                    ),
                    b[4],
                ),
                b[5],
            ),
            b[6],
        ),
        b[7],
    )
}

fn mix(s: u64, x: u32) -> (r: u64)
    ensures
        r == hash_step(s, x),
{
    ((s << 13u64) | (s >> 51u64)) ^ (x as u64)
}

/// Stable cache key of a camera pose: poses with bit-identical components hash
/// the same.
pub fn camera_state_hash(bits: [u32; 8]) -> (h: u64)
    ensures
        h == spec_camera_state_hash(bits),
{
    let mut s: u64 = CAMERA_HASH_SEED;
    s = mix(s, bits[0]);
    s = mix(s, bits[1]);
    s = mix(s, bits[2]);
    s = mix(s, bits[3]);
    s = mix(s, bits[4]);
    s = mix(s, bits[5]);
    s = mix(s, bits[6]);
    s = mix(s, bits[7]);
    s
}

} // verus!
