use cadscene::lod::{lod_level, LodConfig};
use cadscene::viewport::{camera_state_hash, CameraState, TileEdgeOrient};

fn reference_hash(bits: [u32; 8]) -> u64 {
    let mut s: u64 = 0xcbf2_9ce4_8422_2325;
    for b in bits {
        s = s.rotate_left(13) ^ b as u64;
    }
    s
}

#[test]
fn camera_hash_matches_rotate_xor_chain() {
    let pose = [1.0f32, -2.5, 0.0, 0.0, 0.0, 0.0, 1.0, 10.0].map(f32::to_bits);
    assert_eq!(camera_state_hash(pose), reference_hash(pose));
    let moved = [1.0f32, -2.5, 0.0, 0.0, 0.0, 0.0, 1.0, 10.5].map(f32::to_bits);
    assert_ne!(camera_state_hash(pose), camera_state_hash(moved));
    assert_eq!(camera_state_hash([0; 8]), 0xcbf2_9ce4_8422_2325u64.rotate_left(13 * 8));
}

#[test]
fn camera_state_defaults_to_no_hover() {
    let c = CameraState::default();
    assert_eq!(c.hover_region, None);
    assert_ne!(TileEdgeOrient::Vertical, TileEdgeOrient::Horizontal);
}

#[test]
fn lod_table_and_fallback() {
    let all = LodConfig::all();
    assert_eq!(all[0], LodConfig { circ_segs: 48, grid_u: 32, grid_v: 16 });
    assert_eq!(all[1], LodConfig { circ_segs: 24, grid_u: 16, grid_v: 8 });
    assert_eq!(all[2], LodConfig { circ_segs: 12, grid_u: 8, grid_v: 4 });
    assert_eq!(lod_level(2, 3), 2);
    assert_eq!(lod_level(2, 1), 0);
    assert_eq!(lod_level(1, 2), 1);
    assert_eq!(lod_level(2, 2), 1);
    assert_eq!(lod_level(0, 0), 0);
    assert_eq!(lod_level(2, 0), 0);
}
