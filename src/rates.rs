//! The rate curves that shape an animation's progress, and the easing kinds
//! between keyframes. Each is a marker; the curves themselves are evaluated
//! by the renderer side on floating-point progress values.

use vstd::prelude::*;

verus! {

/// Progress proportional to time.
#[derive(Debug, Clone)]
pub struct LinearRate;

/// Smoothstep progress.
#[derive(Debug, Clone)]
pub struct SmoothRate;

/// Cubic ease in and out.
#[derive(Debug, Clone)]
pub struct EaseInOutCubicRate;

/// Quadratic ease in.
#[derive(Debug, Clone)]
pub struct EaseInQuadraticRate;

/// Quadratic ease out.
#[derive(Debug, Clone)]
pub struct EaseOutQuadraticRate;

/// Forward to the end at half time, then back.
#[derive(Debug, Clone)]
pub struct ThereAndBackRate;

/// Namespace of the rate curves as plain functions.
#[derive(Debug, Clone, Copy)]
pub struct AnimationRateType;

/// Types of interpolation between keyframes.
#[derive(Debug, Clone, Copy, PartialEq, Eq, Structural)]
pub enum InterpolationType {
    Linear,
    Step,
    EaseIn,
    EaseOut,
    EaseInOut,
}

} // verus!
