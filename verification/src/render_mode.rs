use vstd::prelude::*;

verus! {

/// The render modes a viewport can draw with.
#[derive(Clone, Copy, Debug, PartialEq, Eq, Structural)]
pub enum RenderMode {
    Wireframe2D,
    Wireframe3D,
    HiddenLine,
    FlatShaded,
    GouraudShaded,
    FlatShadedWithEdges,
    GouraudShadedWithEdges,
}

/// Flags the render pipeline consumes, derived from a [`RenderMode`].
#[derive(Clone, Copy, Debug, PartialEq, Eq, Structural)]
pub struct RenderModeFlags {
    pub face3d_fill: bool,
    pub mesh_fill: bool,
    pub show_3d_edges: bool,
    pub hidden_line: bool,
    pub flat_shade: bool,
}

/// Wireframe modes draw no fills; every other mode fills faces and meshes.
pub open spec fn spec_fills(mode: RenderMode) -> bool {
    !(mode == RenderMode::Wireframe2D || mode == RenderMode::Wireframe3D)
}

/// Edges are drawn by the wireframes, by hidden-line, and by the `*WithEdges` modes.
pub open spec fn spec_shows_edges(mode: RenderMode) -> bool {
    mode == RenderMode::Wireframe2D || mode == RenderMode::Wireframe3D
        || mode == RenderMode::HiddenLine || mode == RenderMode::FlatShadedWithEdges
        || mode == RenderMode::GouraudShadedWithEdges
}

pub open spec fn spec_render_mode_flags(mode: RenderMode) -> RenderModeFlags {
    RenderModeFlags {
        face3d_fill: spec_fills(mode),
        mesh_fill: spec_fills(mode),
        show_3d_edges: spec_shows_edges(mode),
        hidden_line: mode == RenderMode::HiddenLine,
        flat_shade: mode == RenderMode::FlatShaded || mode == RenderMode::FlatShadedWithEdges,
    }
}

/// Flags for `mode`: shaded modes fill, wireframes keep only edges,
/// `*WithEdges` modes do both, hidden-line routes fills through a depth pass.
pub fn render_mode_flags(mode: RenderMode) -> (flags: RenderModeFlags)
    ensures
        flags == spec_render_mode_flags(mode),
{
    match mode {
        RenderMode::Wireframe2D | RenderMode::Wireframe3D => RenderModeFlags {
            face3d_fill: false,
            mesh_fill: false,
            show_3d_edges: true,
            hidden_line: false,
            flat_shade: false,
        },
        RenderMode::HiddenLine => RenderModeFlags {
            face3d_fill: true,
            mesh_fill: true,
            show_3d_edges: true,
            hidden_line: true,
            flat_shade: false,
        },
        RenderMode::FlatShaded => RenderModeFlags {
            face3d_fill: true,
            mesh_fill: true,
            show_3d_edges: false,
            hidden_line: false,
            flat_shade: true,
        },
        RenderMode::GouraudShaded => RenderModeFlags {
            face3d_fill: true,
            mesh_fill: true,
            show_3d_edges: false,
            hidden_line: false,
            flat_shade: false,
        },
        RenderMode::FlatShadedWithEdges => RenderModeFlags {
            face3d_fill: true,
            mesh_fill: true,
            show_3d_edges: true,
            hidden_line: false,
            flat_shade: true,
        },
        RenderMode::GouraudShadedWithEdges => RenderModeFlags {
            face3d_fill: true,
            mesh_fill: true,
            show_3d_edges: true,
            hidden_line: false,
            flat_shade: false,
        },
    }
}

} // verus!
