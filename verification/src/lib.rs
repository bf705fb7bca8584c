pub mod biome;
pub mod difficulty;
pub mod level;
pub mod random;
pub mod seed;
pub mod universe;
pub mod visuals;
