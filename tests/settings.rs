use diomanim::config::{
    apply_quality_preset, ExportConfig, ExportFormat, QualitySettings, RenderBudget, RendererBackend,
    RendererConfig, UIConfig,
};
use diomanim::mobjects::triangle_fan;
use diomanim::playback::{time_step, TimeStep};
use diomanim::export::{frame_pattern, frames_export_settings, VideoExportSettings};
use diomanim::rates::InterpolationType;
use diomanim::state::{RenderSettings, SceneState};

#[test]
fn test_video_export_settings() {
    let settings = VideoExportSettings::new(
        1920,
        1080,
        30,
        "test.mp4".to_string(),
        "frames/frame_%04d.png".to_string(),
    );
    assert_eq!(settings.width, 1920);
    assert_eq!(settings.height, 1080);
    assert_eq!(settings.fps, 30);
    assert_eq!(settings.output_path, "test.mp4");
    assert_eq!(settings.input_pattern, "frames/frame_%04d.png");
}

#[test]
fn frames_directory_gives_numbered_pattern() {
    assert_eq!(frame_pattern("out"), "out/frame_%04d.png");
    let s = frames_export_settings("frames", "video.mp4", 640, 480, 24);
    assert_eq!(s.input_pattern, "frames/frame_%04d.png");
    assert_eq!(s.output_path, "video.mp4");
    assert_eq!((s.width, s.height, s.fps), (640, 480, 24));
}

#[test]
fn quality_presets_set_budgets() {
    let start = RenderBudget { samples_per_pixel: 64, shadow_quality: 1024, max_ray_bounces: 3 };
    assert_eq!(
        apply_quality_preset(start, QualitySettings::Low),
        RenderBudget { samples_per_pixel: 16, shadow_quality: 256, max_ray_bounces: 1 }
    );
    assert_eq!(
        apply_quality_preset(start, QualitySettings::Medium),
        RenderBudget { samples_per_pixel: 32, shadow_quality: 512, max_ray_bounces: 2 }
    );
    assert_eq!(apply_quality_preset(start, QualitySettings::High), start);
    assert_eq!(
        apply_quality_preset(start, QualitySettings::Ultra),
        RenderBudget { samples_per_pixel: 128, shadow_quality: 2048, max_ray_bounces: 4 }
    );
    assert_eq!(
        apply_quality_preset(start, QualitySettings::Custom { samples: 7 }),
        RenderBudget { samples_per_pixel: 7, shadow_quality: 1024, max_ray_bounces: 3 }
    );
}

#[test]
fn configuration_defaults() {
    let r = RendererConfig::default();
    assert_eq!(r.backend, RendererBackend::Wgpu);
    assert_eq!(r.quality, QualitySettings::High);
    assert!(r.multi_threading);
    let u = UIConfig::default();
    assert_eq!(u.theme, "dark");
    assert_eq!(u.auto_save_interval, 60);
    let e = ExportConfig::default();
    assert_eq!(e.default_format, ExportFormat::MP4);
    assert_eq!(e.video_bitrate, 10000000);
    assert_eq!(e.audio_bitrate, 320000);
    let s = RenderSettings::default();
    assert_eq!(s.max_ray_bounces, 3);
    assert_eq!(s.samples_per_pixel, 64);
    assert_ne!(SceneState::Playing, SceneState::Paused);
    assert_ne!(InterpolationType::Linear, InterpolationType::Step);
}

#[test]
fn fan_triangulation_indices() {
    assert!(triangle_fan(0).is_empty());
    assert!(triangle_fan(2).is_empty());
    assert_eq!(triangle_fan(3), vec![0, 1, 2]);
    assert_eq!(triangle_fan(5), vec![0, 1, 2, 0, 2, 3, 0, 3, 4]);
    let big = triangle_fan(70000);
    assert_eq!(big.len(), 3 * 69998);
    assert_eq!(&big[3 * 65534..3 * 65536], &[0, 65535, 0, 0, 0, 1]);
}

#[test]
fn non_looping_clip_finishes_at_its_end() {
    assert_eq!(time_step(true, false, true), TimeStep::Finish);
    assert_eq!(time_step(true, false, false), TimeStep::Pass);
}

#[test]
fn looping_clip_always_wraps() {
    assert_eq!(time_step(true, true, true), TimeStep::Wrap);
    assert_eq!(time_step(true, true, false), TimeStep::Wrap);
}

#[test]
fn clip_without_duration_passes_time_through() {
    assert_eq!(time_step(false, false, true), TimeStep::Pass);
    assert_eq!(time_step(false, true, true), TimeStep::Pass);
}

#[test]
fn scene_state_transitions() {
    assert!(SceneState::Playing.is_running());
    assert!(SceneState::Recording.is_running());
    assert!(!SceneState::Paused.is_running());
    assert!(!SceneState::Idle.is_running());
    assert_eq!(SceneState::Recording.at_end(), SceneState::Finished);
    assert_eq!(SceneState::Playing.at_end(), SceneState::Paused);
    assert_eq!(SceneState::Paused.at_end(), SceneState::Paused);
}
