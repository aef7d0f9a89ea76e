//! Levels of detail for tessellated solids.

use vstd::prelude::*;

verus! {

/// Per-LOD sampling density. Higher values give a finer mesh.
#[derive(Copy, Clone, Debug, PartialEq, Eq, Structural)]
pub struct LodConfig {
    /// Arc segments per full circle for curved-surface sampling.
    pub circ_segs: usize,
    /// Longitudinal grid count for sphere / torus surfaces.
    pub grid_u: usize,
    /// Latitudinal grid count for sphere / torus surfaces.
    pub grid_v: usize,
}

/// LOD 0: full resolution.
pub open spec fn lod_high() -> LodConfig {
    LodConfig { circ_segs: 48, grid_u: 32, grid_v: 16 }
}

/// LOD 1: half resolution, for roughly 50 to 200 px of projected diagonal.
pub open spec fn lod_mid() -> LodConfig {
    LodConfig { circ_segs: 24, grid_u: 16, grid_v: 8 }
}

/// LOD 2: quarter resolution, below about 50 px.
pub open spec fn lod_low() -> LodConfig {
    LodConfig { circ_segs: 12, grid_u: 8, grid_v: 4 }
}

impl LodConfig {
    /// LOD 0: full resolution.
    pub fn high() -> (c: LodConfig)
        ensures
            c == lod_high(),
    {
        LodConfig { circ_segs: 48, grid_u: 32, grid_v: 16 }
    }

    /// LOD 1: half resolution.
    pub fn mid() -> (c: LodConfig)
        ensures
            c == lod_mid(),
    {
        LodConfig { circ_segs: 24, grid_u: 16, grid_v: 8 }
    }

    /// LOD 2: quarter resolution.
    pub fn low() -> (c: LodConfig)
        ensures
            c == lod_low(),
    {
        LodConfig { circ_segs: 12, grid_u: 8, grid_v: 4 }
    }

    /// The three configs in `[high, mid, low]` order, the slot order of a mesh's
    /// LOD set.
    pub fn all() -> (r: [LodConfig; 3])
        ensures
            r[0] == lod_high(),
            r[1] == lod_mid(),
            r[2] == lod_low(),
    {
        [Self::high(), Self::mid(), Self::low()]
    }
}

/// Each level samples at most as densely as the one before it.
pub proof fn law_lods_coarsen()
    ensures
        lod_mid().circ_segs <= lod_high().circ_segs && lod_low().circ_segs <= lod_mid().circ_segs,
        lod_mid().grid_u <= lod_high().grid_u && lod_low().grid_u <= lod_mid().grid_u,
        lod_mid().grid_v <= lod_high().grid_v && lod_low().grid_v <= lod_mid().grid_v,
{
}

/// The LOD slot drawn for a wanted level `target` when the mesh holds `n_lods`
/// levels: the nearest available level at or below `target`, or 0 when none is.
pub open spec fn spec_lod_level(target: nat, n_lods: nat) -> nat {
    if n_lods == 0 {
        0
    } else if target < n_lods {
        target
    } else {
        (n_lods - 1) as nat
    }
}

/// Walks down from `target` to the nearest level the mesh holds.
pub fn lod_level(target: usize, n_lods: usize) -> (level: usize)
    ensures
        level == spec_lod_level(target as nat, n_lods as nat),
{
    let mut level = target;
    loop
        invariant
            level <= target,
            level < target ==> target >= n_lods && n_lods <= level + 1,
        decreases level,
    {
        if level < n_lods {
            return level;
        }
        if level == 0 {
            return 0;
        }
        level = level - 1;
    }
}

} // verus!
