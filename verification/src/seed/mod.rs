pub mod hasher;
pub mod hierarchy;
pub mod sharing;
