//! Settings of a video export from rendered frames.

use vstd::prelude::*;
use vstd::string::StringExecFns;

verus! {

/// Video export settings.
pub struct VideoExportSettings {
    pub width: u32,
    pub height: u32,
    pub fps: u32,
    pub output_path: String,
    pub input_pattern: String,
}

impl VideoExportSettings {
    pub fn new(width: u32, height: u32, fps: u32, output_path: String, input_pattern: String) -> (r: Self)
        ensures
            r.width == width,
            r.height == height,
            r.fps == fps,
            r.output_path@ == output_path@,
            r.input_pattern@ == input_pattern@,
    {
        VideoExportSettings { width, height, fps, output_path, input_pattern }
    }
}

/// The file pattern of numbered frames in `frames_dir`.
pub fn frame_pattern(frames_dir: &str) -> (r: String)
    ensures
        r@ == frames_dir@ + "/frame_%04d.png"@,
{
    let mut r = String::from_str(frames_dir);
    r.append("/frame_%04d.png");
    r
}

/// Settings to export the numbered frames of `frames_dir` to `output_path`.
pub fn frames_export_settings(frames_dir: &str, output_path: &str, width: u32, height: u32, fps: u32) -> (r:
    VideoExportSettings)
    ensures
        r.width == width,
        r.height == height,
        r.fps == fps,
        r.output_path@ == output_path@,
        r.input_pattern@ == frames_dir@ + "/frame_%04d.png"@,
{
    VideoExportSettings::new(width, height, fps, String::from_str(output_path), frame_pattern(frames_dir))
}

} // verus!
