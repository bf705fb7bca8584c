//! Visual style categories a biome theme picks from.
use vstd::prelude::*;

verus! {

#[derive(Debug, Clone, Copy, PartialEq, Eq, Structural)]
pub enum ParticleStyle {
    Spark,
    Flame,
    Bubble,
    Snow,
    Dust,
    Glitch,
}

#[derive(Debug, Clone, Copy, PartialEq, Eq, Structural)]
pub enum BackgroundStyle {
    Gradient,
    NoiseField,
    GeometricShapes,
    Starfield,
    Fractal,
}

} // verus!
