//! Core, float-free logic of a CAD scene: the spatial index, the LFF stroke-font
//! format, text control codes, object-snap mode state, layouts and paper-space
//! viewports, block ownership, selection and groups, quick-select properties,
//! layer-inherited styles, dimension arrowheads and render-mode flags.

pub mod quadtree;
pub mod render_mode;
pub mod snap;
pub mod viewport;
pub mod lod;
pub mod text_codes;
pub mod lff;
pub mod fonts;
pub mod selection;
pub mod props;
pub mod layouts;
pub mod ownership;
pub mod paper;
pub mod arrows;
pub mod layers;
