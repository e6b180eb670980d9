//! Playback state of a scene and its render settings.

use vstd::prelude::*;

verus! {

/// Playback state of a scene.
#[derive(Debug, Clone, Copy, PartialEq, Eq, Structural)]
pub enum SceneState {
    /// Not started, or stopped
    Idle,
    Playing,
    Paused,
    Recording,
    Finished,
}

impl SceneState {
    /// Whether the scene's time advances in this state.
    pub fn is_running(&self) -> (r: bool)
        ensures
            r == (*self == SceneState::Playing || *self == SceneState::Recording),
    {
        match self {
            SceneState::Playing | SceneState::Recording => true,
            _ => false,
        }
    }

    /// The state once a running scene's time reaches its duration: a recording
    /// finishes, playback pauses, any other state stays.
    pub fn at_end(self) -> (r: SceneState)
        ensures
            r == match self {
                SceneState::Recording => SceneState::Finished,
                SceneState::Playing => SceneState::Paused,
                other => other,
            },
    {
        match self {
            SceneState::Recording => SceneState::Finished,
            SceneState::Playing => SceneState::Paused,
            other => other,
        }
    }
}

/// Settings of a render pass.
#[derive(Debug, Clone)]
pub struct RenderSettings {
    pub enable_shadows: bool,
    pub enable_anti_aliasing: bool,
    pub enable_post_processing: bool,
    pub max_ray_bounces: u32,
    pub samples_per_pixel: u32,
}

impl Default for RenderSettings {
    fn default() -> (r: Self)
        ensures
            r.enable_shadows,
            r.enable_anti_aliasing,
            r.enable_post_processing,
            r.max_ray_bounces == 3,
            r.samples_per_pixel == 64,
    {
        RenderSettings {
            enable_shadows: true,
            enable_anti_aliasing: true,
            enable_post_processing: true,
            max_ray_bounces: 3,
            samples_per_pixel: 64,
        }
    }
}

} // verus!
