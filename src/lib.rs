//! Animation engine core: a scene hierarchy with cycle-free parenting,
//! subtree removal and the drawing walk; LaTeX expression trees; and the
//! plain configuration values around them.

pub mod atlas;
pub mod color;
pub mod config;
pub mod export;
pub mod math;
pub mod mobjects;
pub mod playback;
pub mod rates;
pub mod scene;
pub mod state;
