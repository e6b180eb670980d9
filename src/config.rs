//! Engine configuration values and quality presets.

use vstd::prelude::*;
use vstd::string::StringExecFns;

verus! {

/// Rendering backend.
#[derive(Debug, Clone, Copy, PartialEq, Eq, Structural)]
pub enum RendererBackend {
    Wgpu,
    Vulkan,
    Metal,
    OpenGL,
}

/// Rendering quality level.
#[derive(Debug, Clone, Copy, PartialEq, Eq, Structural)]
pub enum QualitySettings {
    Low,
    Medium,
    High,
    Ultra,
    Custom { samples: u32 },
}

/// Output format of an export.
#[derive(Debug, Clone, Copy, PartialEq, Eq, Structural)]
pub enum ExportFormat {
    MP4,
    MOV,
    WebM,
    GIF,
    PNGSequence,
    SVGSequence,
}

/// Renderer settings.
#[derive(Debug, Clone)]
pub struct RendererConfig {
    pub backend: RendererBackend,
    pub quality: QualitySettings,
    pub multi_threading: bool,
}

impl Default for RendererConfig {
    fn default() -> (r: Self)
        ensures
            r.backend == RendererBackend::Wgpu,
            r.quality == QualitySettings::High,
            r.multi_threading,
    {
        RendererConfig { backend: RendererBackend::Wgpu, quality: QualitySettings::High, multi_threading: true }
    }
}

/// User-interface settings.
#[derive(Debug, Clone)]
pub struct UIConfig {
    pub theme: String,
    pub show_fps: bool,
    pub auto_save: bool,
    pub auto_save_interval: u32,
}

impl Default for UIConfig {
    fn default() -> (r: Self)
        ensures
            r.theme@ == "dark"@,
            r.show_fps,
            r.auto_save,
            r.auto_save_interval == 60,
    {
        UIConfig { theme: String::from_str("dark"), show_fps: true, auto_save: true, auto_save_interval: 60 }
    }
}

/// Export settings.
#[derive(Debug, Clone)]
pub struct ExportConfig {
    pub default_format: ExportFormat,
    pub video_bitrate: u32,
    pub audio_bitrate: u32,
    pub enable_compression: bool,
}

impl Default for ExportConfig {
    fn default() -> (r: Self)
        ensures
            r.default_format == ExportFormat::MP4,
            r.video_bitrate == 10000000,
            r.audio_bitrate == 320000,
            r.enable_compression,
    {
        ExportConfig {
            default_format: ExportFormat::MP4,
            video_bitrate: 10000000,
            audio_bitrate: 320000,
            enable_compression: true,
        }
    }
}

/// The integer rendering budget of a scene that a quality level sets.
#[derive(Debug, Clone, Copy, PartialEq, Eq, Structural)]
pub struct RenderBudget {
    pub samples_per_pixel: u32,
    pub shadow_quality: u32,
    pub max_ray_bounces: u32,
}

/// The budget after applying `quality`: each fixed level sets all three values;
/// a custom level sets only the samples per pixel.
pub open spec fn preset_budget(budget: RenderBudget, quality: QualitySettings) -> RenderBudget {
    match quality {
        QualitySettings::Low => RenderBudget { samples_per_pixel: 16, shadow_quality: 256, max_ray_bounces: 1 },
        QualitySettings::Medium => RenderBudget { samples_per_pixel: 32, shadow_quality: 512, max_ray_bounces: 2 },
        QualitySettings::High => RenderBudget { samples_per_pixel: 64, shadow_quality: 1024, max_ray_bounces: 3 },
        QualitySettings::Ultra => RenderBudget { samples_per_pixel: 128, shadow_quality: 2048, max_ray_bounces: 4 },
        QualitySettings::Custom { samples } => RenderBudget { samples_per_pixel: samples, ..budget },
    }
}

/// Applies a quality preset to a rendering budget.
pub fn apply_quality_preset(budget: RenderBudget, quality: QualitySettings) -> (r: RenderBudget)
    ensures
        r == preset_budget(budget, quality),
{
    match quality {
        QualitySettings::Low => RenderBudget { samples_per_pixel: 16, shadow_quality: 256, max_ray_bounces: 1 },
        QualitySettings::Medium => RenderBudget { samples_per_pixel: 32, shadow_quality: 512, max_ray_bounces: 2 },
        QualitySettings::High => RenderBudget { samples_per_pixel: 64, shadow_quality: 1024, max_ray_bounces: 3 },
        QualitySettings::Ultra => RenderBudget { samples_per_pixel: 128, shadow_quality: 2048, max_ray_bounces: 4 },
        QualitySettings::Custom { samples } => RenderBudget {
            samples_per_pixel: samples,
            shadow_quality: budget.shadow_quality,
            max_ray_bounces: budget.max_ray_bounces,
        },
    }
}

} // verus!
